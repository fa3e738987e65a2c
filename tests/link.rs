use telemetry_link::command::{
    decode_command, encode_binary_command, encode_text_command, target_from_tag, Command, Target,
};
use telemetry_link::decoder::Codec;
use telemetry_link::numbers::Real;
use telemetry_link::session::{is_present, step, LinkAction, LinkEvent, LinkState};

fn port(s: &str) -> Vec<u8> {
    s.as_bytes().to_vec()
}

#[test]
fn text_command_round_trip_is_exact() {
    let bytes = encode_text_command(Target::Kp, b"0.73").unwrap();
    assert_eq!(bytes, b"p0.73\n".to_vec());
    let frame = &bytes[..bytes.len() - 1];
    assert_eq!(
        decode_command(Codec::Text, frame),
        Some(Command { target: Target::Kp, value: Real::Decimal { mantissa: 73, scale: 2 } })
    );
}

#[test]
fn text_command_needs_a_decimal() {
    assert_eq!(encode_text_command(Target::Ki, b"abc"), None);
    assert_eq!(encode_text_command(Target::Ki, b""), None);
    assert_eq!(encode_text_command(Target::Kd, b"-2"), Some(b"d-2\n".to_vec()));
    assert_eq!(encode_text_command(Target::Kd, b"1.2.3"), None);
}

#[test]
fn text_command_takes_any_number_of_digits() {
    let text = format!("{}", 1e20f32);
    assert_eq!(text.len(), 21);
    let bytes = encode_text_command(Target::Kp, text.as_bytes()).unwrap();
    assert_eq!(bytes[0], b'p');
    assert_eq!(*bytes.last().unwrap(), b'\n');
    let back: f32 = std::str::from_utf8(&bytes[1..bytes.len() - 1]).unwrap().parse().unwrap();
    assert_eq!(back, 1e20f32);
    let tiny = format!("{}", f32::MIN_POSITIVE);
    assert!(encode_text_command(Target::Ki, tiny.as_bytes()).is_some());
}

#[test]
fn binary_command_round_trip_is_exact() {
    let bits = 0.73f32.to_bits();
    let bytes = encode_binary_command(Target::Kp, bits);
    assert_eq!(bytes.len(), 6);
    assert_eq!(bytes[0], b'p');
    assert_eq!(&bytes[1..5], &bits.to_le_bytes());
    assert_eq!(bytes[5], b'\n');
    let cmd = decode_command(Codec::Binary, &bytes[..5]).unwrap();
    assert_eq!(cmd.target, Target::Kp);
    match cmd.value {
        Real::Single(b) => assert!((f32::from_bits(b) - 0.73).abs() < 1e-6),
        _ => panic!("expected a single-precision value"),
    }
}

#[test]
fn command_tags() {
    assert_eq!(target_from_tag(b'p'), Some(Target::Kp));
    assert_eq!(target_from_tag(b'i'), Some(Target::Ki));
    assert_eq!(target_from_tag(b'd'), Some(Target::Kd));
    assert_eq!(target_from_tag(b'x'), None);
    assert_eq!(decode_command(Codec::Text, b"x1.0"), None);
    assert_eq!(decode_command(Codec::Text, b""), None);
    assert_eq!(decode_command(Codec::Binary, b"p123"), None);
}

#[test]
fn presence_is_membership() {
    let ports = Some(vec![port("/dev/ttyUSB0"), port("/dev/ttyACM0")]);
    assert!(is_present(b"/dev/ttyACM0", &ports));
    assert!(!is_present(b"/dev/ttyACM1", &ports));
    assert!(!is_present(b"/dev/ttyACM", &ports));
    assert!(!is_present(b"/dev/ttyACM0", &None));
    assert!(!is_present(b"/dev/ttyACM0", &Some(vec![])));
}

#[test]
fn disappearing_port_closes_once() {
    let (s, a) = step(LinkState::Closed, LinkEvent::Select(Some(port("/dev/ttyUSB0"))));
    assert!(matches!(a, LinkAction::Open(ref p) if *p == port("/dev/ttyUSB0")));
    assert!(matches!(s, LinkState::Opening(_)));
    let (s, a) = step(s, LinkEvent::Opened);
    assert!(matches!(s, LinkState::Open(_)));
    assert!(matches!(a, LinkAction::Nothing));
    let (s, a) = step(s, LinkEvent::Poll(Some(vec![port("/dev/ttyUSB0")])));
    assert!(matches!(s, LinkState::Open(_)));
    assert!(matches!(a, LinkAction::Nothing));
    let (s, a) = step(s, LinkEvent::Poll(Some(vec![port("/dev/ttyUSB1")])));
    assert!(matches!(s, LinkState::Closed));
    assert!(matches!(a, LinkAction::Close));
    let (s, a) = step(s, LinkEvent::Poll(Some(vec![])));
    assert!(matches!(s, LinkState::Closed));
    assert!(matches!(a, LinkAction::Nothing));
}

#[test]
fn failed_listing_counts_as_gone() {
    let (s, _) = step(LinkState::Open(port("COM3")), LinkEvent::Poll(None));
    assert!(matches!(s, LinkState::Closed));
}

#[test]
fn failed_open_returns_to_closed() {
    let (s, _) = step(LinkState::Closed, LinkEvent::Select(Some(port("COM3"))));
    let (s, a) = step(s, LinkEvent::OpenFailed);
    assert!(matches!(s, LinkState::Closed));
    assert!(matches!(a, LinkAction::Nothing));
}

#[test]
fn deselect_closes_only_what_is_open() {
    let (s, a) = step(LinkState::Open(port("COM3")), LinkEvent::Select(None));
    assert!(matches!(s, LinkState::Closed));
    assert!(matches!(a, LinkAction::Close));
    let (s, a) = step(s, LinkEvent::Select(None));
    assert!(matches!(s, LinkState::Closed));
    assert!(matches!(a, LinkAction::Nothing));
}

#[test]
fn stray_events_change_nothing() {
    let (s, a) = step(LinkState::Closed, LinkEvent::Opened);
    assert!(matches!(s, LinkState::Closed));
    assert!(matches!(a, LinkAction::Nothing));
    let (s, _) = step(LinkState::Open(port("COM3")), LinkEvent::OpenFailed);
    assert!(matches!(s, LinkState::Open(_)));
}
