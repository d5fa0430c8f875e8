use linq::error::IoError;
use linq::registry::{continues, Lifecycle, Operation, Registry, UpdateProgress};
use linq::update::{decimal_text, DashboardUpdatePackets, Update};
use linq::device::{Driver, Summary, UsbMetadata};
use linq::request::Request;

fn record(kind: &str, size: u32, offset: u32, payload: &str) -> String {
    format!(
        "{{\"type\":\"{}\",\"size\":{},\"offset\":{},\"payload\":\"{}\",\"md5\":\"m{}\"}}",
        kind, size, offset, payload, offset
    )
}

fn bundle(images: &[usize]) -> String {
    let files: Vec<String> = images
        .iter()
        .enumerate()
        .map(|(n, count)| {
            let recs: Vec<String> =
                (0..*count).map(|i| record(&format!("img{}", n), 64, i as u32 * 64, &format!("p{}", i))).collect();
            format!("{{\"update\":[{}]}}", recs.join(","))
        })
        .collect();
    format!("{{\"files\":[{}]}}", files.join(","))
}

fn body_of(r: &Request) -> String {
    match r {
        Request::Post(p, b) => {
            assert_eq!(p, "/ATX/exe/update");
            b.clone()
        }
        _ => panic!("not a post"),
    }
}

#[test]
fn test_parse() {
    let update = DashboardUpdatePackets::parse(&bundle(&[2, 3]));
    assert_eq!(update.is_ok(), true);
}

#[test]
fn fewer_than_two_images_is_a_parse_error() {
    assert!(matches!(DashboardUpdatePackets::parse(&bundle(&[])), Err(IoError::Parser(_))));
    assert!(matches!(DashboardUpdatePackets::parse(&bundle(&[3])), Err(IoError::Parser(_))));
    assert!(matches!(DashboardUpdatePackets::parse("{\"files\":3}"), Err(IoError::Parser(_))));
    assert!(matches!(DashboardUpdatePackets::parse("not json"), Err(IoError::Parser(_))));
    let missing = "{\"files\":[{\"update\":[{\"type\":\"a\"}]},{\"update\":[]}]}";
    assert!(matches!(DashboardUpdatePackets::parse(missing), Err(IoError::Parser(_))));
    let negative = "{\"files\":[{\"update\":[{\"type\":\"a\",\"size\":-1,\"offset\":0,\"payload\":\"\",\"md5\":\"\"}]},{\"update\":[]}]}";
    assert!(matches!(DashboardUpdatePackets::parse(negative), Err(IoError::Parser(_))));
}

#[test]
fn two_images_give_firmware_and_website_in_order_from_the_tail() {
    let p = DashboardUpdatePackets::parse(&bundle(&[2, 3])).unwrap();
    let mut firmware = p.0;
    let mut website = p.1;
    assert_eq!(firmware.len(), 2);
    assert_eq!(website.len(), 3);
    for i in 0..2u32 {
        assert_eq!(body_of(&firmware.pop().unwrap()), record("img0", 64, i * 64, &format!("p{}", i)));
    }
    for i in 0..3u32 {
        assert_eq!(body_of(&website.pop().unwrap()), record("img1", 64, i * 64, &format!("p{}", i)));
    }
}

#[test]
fn last_two_images_are_used() {
    let p = DashboardUpdatePackets::parse(&bundle(&[5, 1, 4])).unwrap();
    assert_eq!((p.0.len(), p.1.len()), (1, 4));
    assert_eq!(p.image(1).len(), 4);
}

#[test]
fn record_body_escapes_strings() {
    let u = Update {
        kind: "a\"b".to_string(),
        size: 4294967295,
        offset: 0,
        payload: "x\\y\n".to_string(),
        md5: "".to_string(),
    };
    assert_eq!(
        u.body(),
        "{\"type\":\"a\\\"b\",\"size\":4294967295,\"offset\":0,\"payload\":\"x\\\\y\\n\",\"md5\":\"\"}"
    );
    assert_eq!(decimal_text(0), "0");
    assert_eq!(decimal_text(1203), "1203");
}

fn meta(serial: &str, sid: &str) -> UsbMetadata {
    UsbMetadata::new(sid, Driver::K64, &Summary { vendor: 1, product: 0x20, serial: serial.to_string() })
}

#[test]
fn registry_keeps_one_channel_per_serial() {
    let mut reg = Registry::new();
    let out = reg.register_all(vec![meta("a", "usb1"), meta("b", "usb2")]);
    assert_eq!(out.len(), 2);
    assert_eq!(reg.get("a").unwrap().sid, "usb1");
    reg.insert(meta("a", "usb3"));
    assert_eq!(reg.get("a").unwrap().sid, "usb3");
    assert_eq!(reg.meta().len(), 2);
    assert!(matches!(reg.get("zzz"), Err(IoError::DeviceNotFound(_))));
    reg.clear();
    assert!(reg.meta().is_empty());
    assert!(matches!(reg.get("a"), Err(IoError::DeviceNotFound(_))));
}

#[test]
fn progress_counts_completed_requests() {
    let p = DashboardUpdatePackets::parse(&bundle(&[3, 1])).unwrap();
    let mut progress = UpdateProgress::new(p.image(0));
    assert_eq!(progress.progress(), (0, 3));
    let mut seen = vec![];
    while let Some(r) = progress.next_request() {
        seen.push(body_of(&r));
        seen.push(format!("{:?}", progress.progress()));
    }
    assert_eq!(seen[1], "(1, 3)");
    assert_eq!(seen[5], "(3, 3)");
    assert_eq!(seen[0], record("img0", 64, 0, "p0"));
    assert_eq!(progress.next_request(), None);
}

#[test]
fn close_is_idempotent_and_required() {
    let mut life = Lifecycle::started();
    assert!(matches!(life.check_released(), Err(IoError::Impossible(_))));
    assert!(life.close());
    assert!(!life.close());
    assert!(life.check_released().is_ok());
}

#[test]
fn worker_stops_on_close_or_undelivered_reply() {
    assert!(continues(Operation::Scan, true));
    assert!(continues(Operation::Device, true));
    assert!(!continues(Operation::Device, false));
    assert!(!continues(Operation::Close, true));
}

#[test]
fn a_failed_request_ends_the_update() {
    let p = DashboardUpdatePackets::parse(&bundle(&[3, 1])).unwrap();
    let mut progress = UpdateProgress::new(p.image(0));
    assert!(progress.next_request().is_some());
    progress.fail();
    assert_eq!(progress.next_request(), None);
    assert_eq!(progress.progress(), (3, 3));
}

#[test]
fn register_all_keeps_the_last_entry_per_serial() {
    let mut reg = Registry::new();
    reg.register_all(vec![meta("a", "usb1"), meta("a", "usb2")]);
    assert_eq!(reg.get("a").unwrap().sid, "usb2");
    assert_eq!(reg.meta().len(), 1);
    match reg.get("zz") {
        Err(IoError::DeviceNotFound(s)) => assert_eq!(s, "zz"),
        _ => panic!("expected not found"),
    }
}

#[test]
fn record_body_escapes_control_characters() {
    let u = Update {
        kind: "\u{8}\t\r\u{c}\u{1}\u{1f}".to_string(),
        size: 7,
        offset: 12,
        payload: "é/".to_string(),
        md5: "\u{7f}".to_string(),
    };
    assert_eq!(
        u.body(),
        "{\"type\":\"\\b\\t\\r\\f\\u0001\\u001f\",\"size\":7,\"offset\":12,\"payload\":\"é/\",\"md5\":\"\u{7f}\"}"
    );
}
