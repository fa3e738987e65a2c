use telemetry_link::decoder::{decode_frame, Codec, FrameDecoder};
use telemetry_link::message::{decode_binary, decode_text, Msg};
use telemetry_link::numbers::{parse_decimal, parse_i32, Real};

fn dec(mantissa: i64, scale: u32) -> Real {
    Real::Decimal { mantissa, scale }
}

#[test]
fn seven_field_frame_decodes() {
    let m = decode_text(b"10,-20,1,0,0.5,0.1,0.05").unwrap();
    assert_eq!(
        m,
        Msg {
            left_motor: 10,
            right_motor: -20,
            left_sensor: true,
            right_sensor: false,
            kp: dec(5, 1),
            ki: dec(1, 1),
            kd: dec(5, 2),
        }
    );
}

#[test]
fn four_field_frame_is_rejected() {
    assert_eq!(decode_text(b"10,-20,1,0"), None);
}

#[test]
fn eight_field_frame_is_rejected() {
    assert_eq!(decode_text(b"10,-20,1,0,0.5,0.1,0.05,7"), None);
}

#[test]
fn empty_frame_is_rejected() {
    assert_eq!(decode_text(b""), None);
}

#[test]
fn one_bad_field_discards_the_frame() {
    assert_eq!(decode_text(b"10,-20,1,0,0.5,x,0.05"), None);
    assert_eq!(decode_text(b"10,,1,0,0.5,0.1,0.05"), None);
    assert_eq!(decode_text(b"10,-20,1,0,0.5,0.1,0.05 "), None);
}

#[test]
fn sensor_is_the_literal_zero_or_one() {
    let m = decode_text(b"0,0,0,1,1,1,1").unwrap();
    assert!(!m.left_sensor);
    assert!(m.right_sensor);
    assert_eq!(decode_text(b"10,-20,2,0,0.5,0.1,0.05"), None);
    assert_eq!(decode_text(b"10,-20,1,-1,0.5,0.1,0.05"), None);
    assert_eq!(decode_text(b"10,-20,+1,0,0.5,0.1,0.05"), None);
    assert_eq!(decode_text(b"10,-20,01,0,0.5,0.1,0.05"), None);
    assert_eq!(decode_text(b"10,-20,,0,0.5,0.1,0.05"), None);
}

#[test]
fn integers_read_like_str_parse() {
    assert_eq!(parse_i32(b"42"), Some(42));
    assert_eq!(parse_i32(b"+7"), Some(7));
    assert_eq!(parse_i32(b"-0"), Some(0));
    assert_eq!(parse_i32(b"007"), Some(7));
    assert_eq!(parse_i32(b"2147483647"), Some(i32::MAX));
    assert_eq!(parse_i32(b"-2147483648"), Some(i32::MIN));
    assert_eq!(parse_i32(b"2147483648"), None);
    assert_eq!(parse_i32(b"-2147483649"), None);
    assert_eq!(parse_i32(b"99999999999999999999"), None);
    assert_eq!(parse_i32(b""), None);
    assert_eq!(parse_i32(b"-"), None);
    assert_eq!(parse_i32(b"1a"), None);
    assert_eq!(parse_i32(b" 1"), None);
}

#[test]
fn decimals_keep_every_digit() {
    assert_eq!(parse_decimal(b"0.5"), Some(dec(5, 1)));
    assert_eq!(parse_decimal(b"-1.50"), Some(dec(-150, 2)));
    assert_eq!(parse_decimal(b"+3"), Some(dec(3, 0)));
    assert_eq!(parse_decimal(b".25"), Some(dec(25, 2)));
    assert_eq!(parse_decimal(b"7."), Some(dec(7, 0)));
    assert_eq!(parse_decimal(b"9223372036854775807"), Some(dec(i64::MAX, 0)));
    assert_eq!(parse_decimal(b"-922337203685477580.7"), Some(dec(-i64::MAX, 1)));
    assert_eq!(parse_decimal(b"9223372036854775808"), None);
    assert_eq!(parse_decimal(b"."), None);
    assert_eq!(parse_decimal(b""), None);
    assert_eq!(parse_decimal(b"-"), None);
    assert_eq!(parse_decimal(b"1.2.3"), None);
    assert_eq!(parse_decimal(b"1e3"), None);
}

fn binary_frame(l: i32, r: i32, ls: u8, rs: u8, kp: u32, ki: u32, kd: u32) -> Vec<u8> {
    let mut v = Vec::new();
    v.extend_from_slice(&l.to_le_bytes());
    v.extend_from_slice(&r.to_le_bytes());
    v.push(ls);
    v.push(rs);
    v.extend_from_slice(&kp.to_le_bytes());
    v.extend_from_slice(&ki.to_le_bytes());
    v.extend_from_slice(&kd.to_le_bytes());
    v
}

#[test]
fn binary_frame_decodes() {
    let kp = 0.5f32.to_bits();
    let ki = 0.1f32.to_bits();
    let kd = 0.05f32.to_bits();
    let f = binary_frame(-300, 255, 1, 0, kp, ki, kd);
    assert_eq!(
        decode_binary(&f),
        Some(Msg {
            left_motor: -300,
            right_motor: 255,
            left_sensor: true,
            right_sensor: false,
            kp: Real::Single(kp),
            ki: Real::Single(ki),
            kd: Real::Single(kd),
        })
    );
    let g = binary_frame(i32::MIN, i32::MAX, 0, 1, 0, u32::MAX, 1);
    let m = decode_binary(&g).unwrap();
    assert_eq!(m.left_motor, i32::MIN);
    assert_eq!(m.right_motor, i32::MAX);
    assert_eq!(m.ki, Real::Single(u32::MAX));
}

#[test]
fn binary_frame_with_bad_flag_or_length_is_rejected() {
    let f = binary_frame(1, 2, 2, 0, 0, 0, 0);
    assert_eq!(decode_binary(&f), None);
    let mut g = binary_frame(1, 2, 0, 0, 0, 0, 0);
    g.pop();
    assert_eq!(decode_binary(&g), None);
    g.push(0);
    g.push(0);
    assert_eq!(decode_binary(&g), None);
}

#[test]
fn decode_frame_follows_the_codec() {
    let f = binary_frame(1, 2, 0, 0, 0, 0, 0);
    assert!(decode_frame(Codec::Binary, &f).is_some());
    assert!(decode_frame(Codec::Text, &f).is_none());
    assert!(decode_frame(Codec::Text, b"1,2,0,0,0,0,0").is_some());
    assert!(decode_frame(Codec::Binary, b"1,2,0,0,0,0,0").is_none());
}

#[test]
fn one_pair_per_newline() {
    let mut d = FrameDecoder::new(Codec::Text);
    let stream = b"1,2,0,0,0,0,0\ngarbage\n\n3,4,1,1,1,1,1\npartial";
    let out = d.feed(stream);
    assert_eq!(out.len(), 4);
    assert!(out[0].0.is_some());
    assert_eq!(out[1].0, None);
    assert_eq!(out[1].1, b"garbage".to_vec());
    assert_eq!(out[2].1, Vec::<u8>::new());
    assert_eq!(out[3].0.unwrap().left_motor, 3);
    let rest = d.feed(b"\n");
    assert_eq!(rest.len(), 1);
    assert_eq!(rest[0].1, b"partial".to_vec());
}

#[test]
fn frames_split_across_reads_are_joined() {
    let mut d = FrameDecoder::new(Codec::Text);
    assert!(d.feed(b"10,-20,1,").is_empty());
    assert!(d.feed(b"").is_empty());
    let out = d.feed(b"0,0.5,0.1,0.05\n");
    assert_eq!(out.len(), 1);
    assert_eq!(out[0].1, b"10,-20,1,0,0.5,0.1,0.05".to_vec());
    assert_eq!(out[0].0.unwrap().right_motor, -20);
}

#[test]
fn wrong_arity_keeps_the_raw_text() {
    let mut d = FrameDecoder::new(Codec::Text);
    let out = d.feed(b"10,-20,1,0\n");
    assert_eq!(out.len(), 1);
    assert_eq!(out[0].0, None);
    assert_eq!(out[0].1, b"10,-20,1,0".to_vec());
}

#[test]
fn push_byte_emits_on_newline_only() {
    let mut d = FrameDecoder::new(Codec::Text);
    for b in b"5,6,0,1,1,2,3" {
        assert!(d.push_byte(*b).is_none());
    }
    let (m, raw) = d.push_byte(b'\n').unwrap();
    assert_eq!(raw, b"5,6,0,1,1,2,3".to_vec());
    let m = m.unwrap();
    assert_eq!(m.left_motor, 5);
    assert!(m.right_sensor);
    assert_eq!(m.kd, dec(3, 0));
}
