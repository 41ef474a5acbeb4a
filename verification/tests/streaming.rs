use cpudash::Broadcaster;
use cpudash::SessionAction;
use cpudash::Snapshot;
use cpudash::decode_snapshot;
use cpudash::encode_snapshot;
use cpudash::session_step;

fn snap(utils: Vec<u32>, frags: Vec<&[u8]>) -> Snapshot {
    let frags: Vec<Vec<u8>> = frags.into_iter().map(|f| f.to_vec()).collect();
    Snapshot::new(utils, frags)
}

fn content(s: &Snapshot) -> (Vec<u32>, Vec<Vec<u8>>) {
    let mut utils: Vec<u32> = Vec::new();
    let mut frags: Vec<Vec<u8>> = Vec::new();
    for i in 0..s.len() {
        utils.push(s.utilization(i));
        frags.push(s.fragment(i).clone());
    }
    (utils, frags)
}

#[test]
fn subscriber_gets_nothing_before_a_publish() {
    let mut bus = Broadcaster::new();
    let id = bus.subscribe();
    assert!(bus.recv(id).is_none());
}

#[test]
fn subscriber_receives_published_snapshot_once() {
    let mut bus = Broadcaster::new();
    let id = bus.subscribe();
    bus.publish(&snap(vec![100000], vec![b"x"]));
    let got = bus.recv(id).expect("a snapshot was pending");
    assert_eq!(content(&got), (vec![100000], vec![b"x".to_vec()]));
    // the slot is empty again until the next publish
    assert!(bus.recv(id).is_none());
}

#[test]
fn slow_subscriber_sees_only_the_latest_snapshot() {
    let mut bus = Broadcaster::new();
    let id = bus.subscribe();
    bus.publish(&snap(vec![1], vec![b"first"]));
    bus.publish(&snap(vec![2], vec![b"second"]));
    bus.publish(&snap(vec![3], vec![b"third"]));
    let got = bus.recv(id).expect("a snapshot was pending");
    assert_eq!(content(&got), (vec![3], vec![b"third".to_vec()]));
    assert!(bus.recv(id).is_none());
}

#[test]
fn two_subscribers_receive_equal_content() {
    let mut bus = Broadcaster::new();
    let a = bus.subscribe();
    let b = bus.subscribe();
    assert_ne!(a, b);
    bus.publish(&snap(vec![7, 8], vec![b"p", b"q"]));
    let got_a = bus.recv(a).expect("a snapshot was pending");
    let got_b = bus.recv(b).expect("a snapshot was pending");
    assert_eq!(content(&got_a), content(&got_b));
}

#[test]
fn late_subscriber_misses_earlier_snapshots() {
    let mut bus = Broadcaster::new();
    bus.publish(&snap(vec![1], vec![b"early"]));
    let id = bus.subscribe();
    // nothing published since this subscriber attached
    assert!(bus.recv(id).is_none());
    bus.publish(&snap(vec![2], vec![b"late"]));
    let got = bus.recv(id).expect("a snapshot was pending");
    assert_eq!(content(&got), (vec![2], vec![b"late".to_vec()]));
}

#[test]
fn publish_with_no_subscribers_is_harmless() {
    let mut bus = Broadcaster::new();
    bus.publish(&snap(vec![1], vec![b"a"]));
    assert_eq!(bus.published_count(), 1);
}

#[test]
fn unsubscribe_is_idempotent() {
    let mut bus = Broadcaster::new();
    let id = bus.subscribe();
    bus.publish(&snap(vec![1], vec![b"a"]));
    bus.unsubscribe(id);
    bus.unsubscribe(id);
    assert!(bus.recv(id).is_none());
}

#[test]
fn session_delivers_the_framed_pending_snapshot() {
    let mut bus = Broadcaster::new();
    let id = bus.subscribe();
    bus.publish(&snap(vec![100000], vec![b"x"]));
    match session_step(&mut bus, id) {
        SessionAction::Deliver(bytes) => {
            assert_eq!(bytes, br#"{"cpus":[10.0],"sentences":["x"]}"#.to_vec());
        }
        SessionAction::Wait => panic!("a snapshot was pending"),
    }
    // the slot is empty again, so the session waits
    assert!(matches!(session_step(&mut bus, id), SessionAction::Wait));
}

#[test]
fn serializes_to_the_exact_wire_text() {
    let s = snap(vec![100000, 200000], vec![b"x", b"y"]);
    let enc = encode_snapshot(&s);
    assert_eq!(enc, br#"{"cpus":[10.0,20.0],"sentences":["x","y"]}"#.to_vec());
}

#[test]
fn wire_text_round_trips_to_an_equal_snapshot() {
    let s = snap(vec![100000, 200000], vec![b"x", b"y"]);
    let enc = encode_snapshot(&s);
    let back = decode_snapshot(&enc).expect("own encoding parses");
    assert_eq!(content(&s), content(&back));
}

#[test]
fn number_text_keeps_four_decimal_digits_at_most() {
    assert_eq!(encode_snapshot(&snap(vec![0], vec![b"a"])),
        br#"{"cpus":[0.0],"sentences":["a"]}"#.to_vec());
    assert_eq!(encode_snapshot(&snap(vec![2], vec![b"a"])),
        br#"{"cpus":[0.0002],"sentences":["a"]}"#.to_vec());
    assert_eq!(encode_snapshot(&snap(vec![19], vec![b"a"])),
        br#"{"cpus":[0.0019],"sentences":["a"]}"#.to_vec());
    assert_eq!(encode_snapshot(&snap(vec![123456789], vec![b"a"])),
        br#"{"cpus":[12345.6789],"sentences":["a"]}"#.to_vec());
    assert_eq!(encode_snapshot(&snap(vec![4294967295], vec![b"a"])),
        br#"{"cpus":[429496.7295],"sentences":["a"]}"#.to_vec());
}

#[test]
fn empty_snapshot_serializes_to_empty_arrays() {
    let s = snap(Vec::new(), Vec::new());
    let enc = encode_snapshot(&s);
    assert_eq!(enc, br#"{"cpus":[],"sentences":[]}"#.to_vec());
    let back = decode_snapshot(&enc).expect("own encoding parses");
    assert_eq!(back.len(), 0);
}

#[test]
fn special_characters_are_escaped_and_recovered() {
    let s = snap(vec![5, 6], vec![b"a\"b\\c\nd\te\r", b"\x01low"]);
    let enc = encode_snapshot(&s);
    assert_eq!(enc,
        b"{\"cpus\":[0.0005,0.0006],\"sentences\":[\"a\\\"b\\\\c\\nd\\te\\r\",\"\\u0001low\"]}".to_vec());
    let back = decode_snapshot(&enc).expect("own encoding parses");
    assert_eq!(content(&s), content(&back));
}

#[test]
fn wire_text_is_real_json_for_other_parsers() {
    let s = snap(vec![100000, 2], vec![b"x", b"a\"b"]);
    let enc = encode_snapshot(&s);
    let v: serde_json::Value = serde_json::from_slice(&enc).expect("valid JSON");
    assert_eq!(v["cpus"][0].as_f64().unwrap(), 10.0);
    assert_eq!(v["cpus"][1].as_f64().unwrap(), 0.0002);
    assert_eq!(v["sentences"][0].as_str().unwrap(), "x");
    assert_eq!(v["sentences"][1].as_str().unwrap(), "a\"b");
}

#[test]
fn commas_and_quotes_inside_fragments_round_trip() {
    let s = snap(vec![1, 2], vec![b"a,b", b"c\"d,e"]);
    let enc = encode_snapshot(&s);
    let back = decode_snapshot(&enc).expect("own encoding parses");
    assert_eq!(content(&s), content(&back));
}

#[test]
fn decoder_rejects_foreign_or_mangled_text() {
    assert!(decode_snapshot(&b"{}".to_vec()).is_none());
    // field order is part of the wire form
    assert!(decode_snapshot(&br#"{"sentences":[],"cpus":[]}"#.to_vec()).is_none());
    assert!(decode_snapshot(&Vec::new()).is_none());
    // unequal array lengths are not a snapshot
    assert!(decode_snapshot(&br#"{"cpus":[10.0],"sentences":[]}"#.to_vec()).is_none());
    // a non-canonical number never comes out of the encoder
    assert!(decode_snapshot(&br#"{"cpus":[10.00],"sentences":["x"]}"#.to_vec()).is_none());
    // trailing bytes after the object are refused
    assert!(decode_snapshot(&br#"{"cpus":[],"sentences":[]} "#.to_vec()).is_none());
}
