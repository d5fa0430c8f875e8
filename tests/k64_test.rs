use linq::device::{open_all, Driver, Summary, PID_K64, PID_M5};
use linq::driver::{Reader, ReaderWriter, Transcript, Writer};
use linq::error::{ApiError, IoError, UsbError};
use linq::k64;
use linq::m5;
use linq::packet::{from_str, ACK, IO_SIZE, PREAMBLE};
use linq::request::Request;
use std::collections::VecDeque;

const LONG_DATA: &'static str = r#"
        {
          "about": {
            "siteId": "Site ID",
            "prjVersion": "2.6.6",
            "prjVersionRc": "",
            "productKey": "",
            "product": "LINQ2",
            "mqxVersion": "4.2.0",
            "atxVersion": "2.5.2",
            "atxVersionRc": "1",
            "sslVersion": "3.13.0",
            "webVersion": "2.0.0",
            "mfg": "Altronix",
            "user": "",
            "mac": "CC:67:AB:FF:28:A2",
            "sid": "f4q4riVN1GndwjSMmseFG-B_hUHrkze0oBUyKVyOzwg=",
            "iicAddr": 0,
            "policies": 0,
            "users": {},
            "address": 244,
            "io": 0
          }
        }"#;

/// Any outgoing or incoming packets are simulated in here
pub struct MockPackets {
    pub incoming: VecDeque<Result<[u8; IO_SIZE], IoError>>,
    pub outgoing: Vec<[u8; IO_SIZE]>,
}

impl MockPackets {
    pub fn new() -> Self {
        MockPackets { incoming: VecDeque::new(), outgoing: Vec::new() }
    }

    fn add_incoming(&mut self, bytes: [u8; IO_SIZE]) {
        self.incoming.push_back(Ok(bytes));
    }

    fn add_incoming_error(&mut self, e: IoError) {
        self.incoming.push_back(Err(e));
    }

    fn preambles_written(&self) -> usize {
        self.outgoing.iter().filter(|f| **f == PREAMBLE).count()
    }
}

impl Transcript for MockPackets {}

impl ReaderWriter for MockPackets {}

impl Writer for MockPackets {
    fn write(&mut self, _: &str, bytes: &[u8]) -> Result<usize, IoError> {
        let mut b: [u8; IO_SIZE] = [0; IO_SIZE];
        b.copy_from_slice(&bytes[..]);
        self.outgoing.push(b);
        Ok(bytes.len())
    }
}

impl Reader for MockPackets {
    fn read(&mut self, _: &str, bytes: &mut [u8]) -> Result<usize, IoError> {
        match self.incoming.pop_front().unwrap_or(Err(IoError::Unknown)) {
            Ok(incoming) => {
                bytes.copy_from_slice(&incoming[..]);
                Ok(incoming.len())
            }
            Err(e) => Err(e),
        }
    }
}

fn short_reply(mock: &mut MockPackets, text: &str) {
    let (_, packets) = from_str(text);
    mock.add_incoming(ACK);
    mock.add_incoming(ACK);
    mock.add_incoming(packets[0]);
}

#[test]
fn test_long() {
    let mut mock = MockPackets::new();
    let (len, packets) = from_str(LONG_DATA);
    mock.add_incoming(ACK);
    mock.add_incoming(ACK);
    mock.add_incoming(PREAMBLE);
    mock.add_incoming(len);
    for i in packets {
        mock.add_incoming(i);
    }
    assert!(k64::request_raw(&mut mock, "", Request::get("")).is_ok());
}

#[test]
fn test_short() {
    let mut mock = MockPackets::new();
    let (_, packets) = from_str("{\"siteId\":\"foo\"}");
    mock.add_incoming(ACK);
    mock.add_incoming(ACK);
    mock.add_incoming(packets[0]);
    assert!(k64::request_raw(&mut mock, "", Request::get("")).is_ok());
}

#[test]
fn test_bad() {
    let mut mock = MockPackets::new();
    mock.add_incoming(ACK);
    mock.add_incoming(PREAMBLE); // <-- should be ACK!
    assert!(k64::request_raw(&mut mock, "", Request::get("")).is_err());
}

#[test]
fn test_translate_api_error() {
    let mut mock = MockPackets::new();
    let (_, packets) = from_str("{\"error\":400}");
    mock.add_incoming(ACK);
    mock.add_incoming(ACK);
    mock.add_incoming(packets[0]);
    let response = k64::request_raw(&mut mock, "", Request::get(""));
    let result = if let Err(IoError::ApiError(_)) = response { true } else { false };
    assert_eq!(result, true);
}

#[test]
fn test_flush() {
    let mut mock = MockPackets::new();
    let (_, packets) = from_str("{\"siteId\":\"foo\"}");
    mock.add_incoming(packets[0]); // Garbage in OS incoming buffer
    mock.add_incoming(packets[0]); // Flush it all out
    mock.add_incoming(packets[0]); // Flush it all out
    mock.add_incoming(packets[0]); // Flush it all out
    mock.add_incoming(packets[0]); // Flush it all out
    mock.add_incoming_error(IoError::Unknown); // No more to flush
    mock.add_incoming(ACK);
    mock.add_incoming(ACK);
    mock.add_incoming(packets[0]);
    assert!(k64::request_raw(&mut mock, "", Request::get("")).is_ok());
}

#[test]
fn long_mode_returns_the_decoded_text() {
    let mut mock = MockPackets::new();
    let (len, packets) = from_str(LONG_DATA);
    mock.add_incoming(ACK);
    mock.add_incoming(ACK);
    mock.add_incoming(PREAMBLE);
    mock.add_incoming(len);
    for i in packets {
        mock.add_incoming(i);
    }
    assert_eq!(k64::request_raw(&mut mock, "", Request::get("")).unwrap(), LONG_DATA);
    // preamble, length, one content frame, then one ACK per reply frame and per chunk
    let chunks = (LONG_DATA.len() + 63) / 64;
    assert_eq!(mock.outgoing.len(), 3 + 1 + chunks);
    assert_eq!(mock.outgoing[0], PREAMBLE);
    assert!(mock.outgoing[3..].iter().all(|f| *f == ACK));
}

#[test]
fn short_mode_returns_the_reply_and_sends_the_request() {
    let mut mock = MockPackets::new();
    short_reply(&mut mock, "{\"siteId\":\"foo\"}");
    let r = k64::request_raw(&mut mock, "sid", Request::get("/ATX/about"));
    assert_eq!(r.unwrap(), "{\"siteId\":\"foo\"}");
    let (len, frames) = linq::packet::from_request(&Request::get("/ATX/about"));
    assert_eq!(mock.outgoing, vec![PREAMBLE, len, frames[0]]);
}

#[test]
fn missing_ack_is_a_protocol_violation() {
    let mut mock = MockPackets::new();
    for _ in 0..4 {
        mock.add_incoming(ACK);
        mock.add_incoming(PREAMBLE);
        mock.add_incoming_error(IoError::Unknown); // ends the flush
    }
    let r = k64::request_raw(&mut mock, "", Request::get(""));
    assert!(matches!(r, Err(IoError::Usb(UsbError::Protocol(_)))));
    // four attempts, each flushed afterwards
    assert_eq!(mock.preambles_written(), 4);
}

#[test]
fn flush_then_retry_happens_once() {
    let mut mock = MockPackets::new();
    let (_, packets) = from_str("{\"siteId\":\"foo\"}");
    for _ in 0..5 {
        mock.add_incoming(packets[0]);
    }
    mock.add_incoming_error(IoError::Unknown);
    short_reply(&mut mock, "{\"siteId\":\"foo\"}");
    assert_eq!(k64::request_raw(&mut mock, "", Request::get("")).unwrap(), "{\"siteId\":\"foo\"}");
    assert_eq!(mock.preambles_written(), 2);
    assert!(mock.incoming.is_empty());
}

#[test]
fn api_errors_map_to_their_variants() {
    let cases = [
        ("{\"error\":400}", Some(ApiError::Linq400)),
        ("{\"error\":403}", Some(ApiError::Linq403)),
        ("{\"error\":404}", Some(ApiError::Linq404)),
        ("{\"error\":500}", Some(ApiError::Linq500)),
        ("{\"error\":999}", Some(ApiError::LinqUnknown)),
        ("{\"error\":1.5}", Some(ApiError::LinqUnknown)),
        ("{\"error\":200}", None),
        ("{\"error\":\"x\"}", None),
        ("{\"error\":400,\"x\":1}", None),
        ("[400]", None),
        ("not json", None),
    ];
    for (text, expected) in cases {
        match (k64::translate_error(text.to_string()), expected) {
            (Err(IoError::ApiError(e)), Some(x)) => assert_eq!(e, x),
            (Ok(s), None) => assert_eq!(s, text),
            (other, _) => panic!("{}: {:?}", text, other),
        }
    }
}

#[test]
fn busy_device_is_tried_four_times_without_flush() {
    let mut mock = MockPackets::new();
    for _ in 0..4 {
        short_reply(&mut mock, "{\"error\":504}");
    }
    let r = k64::request_raw(&mut mock, "", Request::get(""));
    assert!(matches!(r, Err(IoError::ApiError(ApiError::Linq504))));
    assert_eq!(mock.preambles_written(), 4);
    assert!(mock.incoming.is_empty());
}

#[test]
fn busy_then_ready_succeeds() {
    let mut mock = MockPackets::new();
    short_reply(&mut mock, "{\"error\":504}");
    short_reply(&mut mock, "{\"ok\":1}");
    assert_eq!(k64::request_raw(&mut mock, "", Request::get("")).unwrap(), "{\"ok\":1}");
}

#[test]
fn invalid_utf8_reply_is_terminal() {
    let mut mock = MockPackets::new();
    let mut bad = [0u8; IO_SIZE];
    bad[0] = 0xc3;
    mock.add_incoming(ACK);
    mock.add_incoming(ACK);
    mock.add_incoming(bad);
    let r = k64::request_raw(&mut mock, "", Request::get(""));
    assert!(matches!(r, Err(IoError::Parser(_))));
    assert_eq!(mock.preambles_written(), 1);
}

#[test]
fn peer_failure_that_is_not_usb_is_terminal() {
    let mut mock = MockPackets::new();
    mock.add_incoming_error(IoError::Kernel("gone".to_string()));
    let r = k64::request_raw(&mut mock, "", Request::get(""));
    assert!(matches!(r, Err(IoError::Kernel(_))));
    assert_eq!(mock.preambles_written(), 1);
}

#[test]
fn make_request_does_not_translate() {
    let mut mock = MockPackets::new();
    short_reply(&mut mock, "{\"error\":400}");
    assert_eq!(k64::make_request(&mut mock, "", &Request::get("")).unwrap(), "{\"error\":400}");
}

#[test]
fn open_reports_the_device_session_id() {
    let mut mock = MockPackets::new();
    let (len, packets) = from_str(LONG_DATA);
    mock.add_incoming(ACK);
    mock.add_incoming(ACK);
    mock.add_incoming(PREAMBLE);
    mock.add_incoming(len);
    for i in packets {
        mock.add_incoming(i);
    }
    assert_eq!(k64::open(&mut mock, "usb").unwrap(), "f4q4riVN1GndwjSMmseFG-B_hUHrkze0oBUyKVyOzwg=");
}

#[test]
fn open_fails_after_retries_on_a_bad_document() {
    let mut mock = MockPackets::new();
    for _ in 0..4 {
        short_reply(&mut mock, "{\"about\":{}}");
    }
    let r = k64::open(&mut mock, "usb");
    assert!(matches!(r, Err(IoError::Usb(UsbError::Parser(_)))));
    assert!(mock.incoming.is_empty());
}

#[test]
fn m5_placeholder_answers_empty() {
    let mut mock = MockPackets::new();
    assert_eq!(m5::request_raw(&mut mock, "x", Request::get("/a")).unwrap(), "");
    assert_eq!(m5::open(&mut mock, "x").unwrap(), "");
    assert!(mock.outgoing.is_empty());
}

#[test]
fn drivers_follow_the_product_id() {
    assert_eq!(Driver::for_product(PID_K64), Some(Driver::K64));
    assert_eq!(Driver::for_product(PID_M5), Some(Driver::M5));
    assert_eq!(Driver::for_product(1), None);
    assert_eq!(Driver::default(), Driver::K64);
}

#[test]
fn open_all_resolves_each_device() {
    let mut mock = MockPackets::new();
    let devices = vec![
        Summary { vendor: 0x3333, product: PID_M5, serial: "m5-usb".to_string() },
    ];
    let metas = open_all(&mut mock, &devices).unwrap();
    assert_eq!(metas.len(), 1);
    assert_eq!(metas[0].serial, "m5-usb");
    assert_eq!(metas[0].sid, "");
    assert_eq!(metas[0].driver, Driver::M5);
    let bad = vec![Summary { vendor: 1, product: 7, serial: "x".to_string() }];
    assert!(matches!(open_all(&mut mock, &bad), Err(IoError::Usb(UsbError::Protocol(_)))));
}

#[test]
fn open_all_of_nothing_is_empty() {
    let mut mock = MockPackets::new();
    assert!(open_all(&mut mock, &vec![]).unwrap().is_empty());
}

#[test]
fn busy_reply_writes_the_same_frames_each_attempt() {
    let mut mock = MockPackets::new();
    short_reply(&mut mock, "{\"error\":504}");
    short_reply(&mut mock, "{\"error\":403}");
    let r = k64::request_raw(&mut mock, "", Request::get(""));
    assert!(matches!(r, Err(IoError::ApiError(ApiError::Linq403))));
    let (len, frames) = linq::packet::from_request(&Request::get(""));
    assert_eq!(mock.outgoing, vec![PREAMBLE, len, frames[0], PREAMBLE, len, frames[0]]);
}

#[test]
fn open_all_uses_the_reported_session_id_on_the_wire() {
    let mut mock = MockPackets::new();
    let (len, packets) = from_str(LONG_DATA);
    mock.add_incoming(ACK);
    mock.add_incoming(ACK);
    mock.add_incoming(PREAMBLE);
    mock.add_incoming(len);
    for i in packets {
        mock.add_incoming(i);
    }
    let devices = vec![Summary { vendor: 0x3333, product: PID_K64, serial: "usb-serial".to_string() }];
    let metas = open_all(&mut mock, &devices).unwrap();
    assert_eq!(metas[0].serial, "usb-serial");
    assert_eq!(metas[0].sid, "f4q4riVN1GndwjSMmseFG-B_hUHrkze0oBUyKVyOzwg=");
    assert_eq!(metas[0].driver, Driver::K64);
}
