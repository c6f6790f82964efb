use des::cipher::{BlockEncrypt, KeyInit};
use fbv::cursor::Cursor;
use std::io::Write;
use fbv::model::{BoardFormat, BoardModel, Point, Side, NO_NET};
use fbv::parsers::{detect, AscSiblings, FormatRead, ParseContext, ParseError};
use fbv::gencad::{component_side, shape_pin_side, GcPlaced, PadstackInfo, ShapeTable};
use fbv::text::{ltrim, split_lines};
use fbv::{asc, bdv, brd, brd2, bvr, cad, cst, fz, gencad, xzz};

fn mils(v: i64) -> f64 {
    v as f64 / 1000.0
}

fn real_parts(m: &BoardModel) -> usize {
    m.parts.iter().filter(|p| !p.is_dummy).count()
}

fn no_keys() -> ParseContext {
    ParseContext::default()
}

#[test]
fn ints_and_doubles() {
    let mut c = Cursor::new(b"  42 -7 3.25 1e3 nope");
    assert_eq!(c.read_int(), 42);
    assert_eq!(c.read_int(), -7);
    // Decimals are read exactly as thousandths.
    assert_eq!(c.read_scaled(3) as f64 / 1000.0, 3.25);
    assert_eq!(c.read_scaled(3) as f64 / 1000.0, 1000.0);
    // No digits: value 0, cursor unmoved, token still readable.
    assert_eq!(c.read_int(), 0);
    assert_eq!(c.read_token(), "nope");
}

#[test]
fn tokens() {
    let mut c = Cursor::new(b"U5300  6 130");
    assert_eq!(c.read_token(), "U5300");
    assert_eq!(c.read_int(), 6);
    assert_eq!(c.read_int(), 130);
}

#[test]
fn bang_fields() {
    let mut c = Cursor::new(b"PPBUS_G3H!U7000!A1!name with spaces!123.5!");
    assert_eq!(c.read_until(b'!'), "PPBUS_G3H");
    assert_eq!(c.read_until(b'!'), "U7000");
    assert_eq!(c.read_until(b'!'), "A1");
    assert_eq!(c.read_until(b'!'), "name with spaces");
    assert_eq!(c.read_scaled(1), 1235);
    c.eat_delim(b'!');
    assert!(c.at_end());
}

#[test]
fn tab_fields() {
    let mut c = Cursor::new(b"TPS51225\t 3V buck \t4\tU7000 U7100\tTPS51225C");
    assert_eq!(c.read_tab_field(), "TPS51225");
    assert_eq!(c.read_tab_field(), "3V buck ");
    assert_eq!(c.read_int(), 4);
    assert_eq!(c.read_tab_field(), "");
    assert_eq!(c.read_tab_field(), "U7000 U7100");
}

#[test]
fn scaled_reading_edges() {
    let mut c = Cursor::new(b"-0.0009 +12. .5e-1 7e 99999999999999999999 -1e400 1e-400");
    assert_eq!(c.read_scaled(3), 0);
    assert_eq!(c.read_scaled(0), 12);
    assert_eq!(c.read_scaled(2), 5);
    // "7e" without exponent digits reads 7 and leaves the 'e'.
    assert_eq!(c.read_scaled(0), 7);
    assert_eq!(c.read_token(), "e");
    assert_eq!(c.read_scaled(0), i64::MAX);
    assert_eq!(c.read_scaled(0), i64::MIN);
    assert_eq!(c.read_scaled(6), 0);
    assert!(c.at_end());
    let mut d = Cursor::new(b"  .");
    assert_eq!(d.read_scaled(0), 0);
    assert_eq!(d.pos(), 0);
}

#[test]
fn int_saturates_and_tab_fields_skip() {
    let mut c = Cursor::new(b"123456789012345678901234 -99\tnext\r\n");
    assert_eq!(c.read_int(), i64::MAX);
    assert_eq!(c.read_int(), -99);
    c.next_tab_field();
    assert_eq!(c.read_token(), "next");
}

#[test]
fn int_reaches_both_ends_of_the_range() {
    let mut c = Cursor::new(b"-9223372036854775808 9223372036854775807 -9223372036854775809 9223372036854775808");
    assert_eq!(c.read_int(), i64::MIN);
    assert_eq!(c.read_int(), i64::MAX);
    assert_eq!(c.read_int(), i64::MIN);
    assert_eq!(c.read_int(), i64::MAX);
    assert!(c.at_end());
}

#[test]
fn scaled_reads_saturate_at_both_ends() {
    let mut c = Cursor::new(b"-9223372036854775808 -1e30 1e30 -9223372036854775.807 9223372036854775807");
    assert_eq!(c.read_scaled(0), i64::MIN);
    assert_eq!(c.read_scaled(0), i64::MIN);
    assert_eq!(c.read_scaled(0), i64::MAX);
    assert_eq!(c.read_scaled(3), -9223372036854775807);
    assert_eq!(c.read_scaled(0), i64::MAX);
    assert!(c.at_end());
}

#[test]
fn ltrim_strips_every_c_space() {
    assert_eq!(ltrim(&[0x0b, 0x41]), &[0x41u8][..]);
    assert_eq!(ltrim(b" \t\n\x0b\x0c\rX "), &b"X "[..]);
    assert_eq!(ltrim(b"\x00 X"), &b"\x00 X"[..]);
    assert_eq!(ltrim(b""), &b""[..]);
}

#[test]
fn line_splitting_matches_stringfile() {
    let buf = b"a\r\nb\nc\n\nd\r\re";
    let lines: Vec<&[u8]> = split_lines(buf);
    let strs: Vec<&str> = lines.iter().map(|l| std::str::from_utf8(l).unwrap()).collect();
    assert_eq!(strs, vec!["a", "b", "c", "d", "e"]);
}

const BRD_SAMPLE: &str = "\
str_length:
800
var_data:
4 2 3 1

Format:
0 0
1000 0
1000 800
0 800

Parts:
U5300 5 2
C0402 10 3

Pins:
100 200 1 1 PPBUS_G3H
110 200 2 1 GND
500 300 3 2 PPBUS_G3H

Nails:
7 600 100 1 PP3V3_S5
";

/// Inverse of the decoder (complement, then rotate right by two).
fn brd_encode(buf: &mut [u8]) {
    for b in buf.iter_mut() {
        let x = *b;
        if !(x == b'\r' || x == b'\n' || x == 0) {
            let inv = !x;
            *b = (inv >> 2) | (inv << 6);
        }
    }
}

#[test]
fn verify_plaintext_and_encoded() {
    assert!(brd::verify(BRD_SAMPLE.as_bytes()));
    assert!(!brd::verify(b"random junk file"));
}

#[test]
fn decode_roundtrips_and_encoded_files_parse() {
    let mut enc = BRD_SAMPLE.as_bytes().to_vec();
    brd_encode(&mut enc);
    let mut dec = enc.clone();
    brd::decode(&mut dec);
    assert_eq!(dec, BRD_SAMPLE.as_bytes());

    let mut plain_with_junk_header = Vec::new();
    plain_with_junk_header.extend_from_slice(b"####\r\n");
    plain_with_junk_header.extend_from_slice(BRD_SAMPLE.as_bytes());
    let mut encoded = plain_with_junk_header.clone();
    brd_encode(&mut encoded);
    encoded[..4].copy_from_slice(&[0x23, 0xe2, 0x63, 0x28]);
    assert!(brd::verify(&encoded));
    let m = brd::parse(&encoded).unwrap();
    assert_eq!(real_parts(&m), 2);
}

#[test]
fn brd_parses_sample() {
    let m = brd::parse(BRD_SAMPLE.as_bytes()).unwrap();
    assert_eq!(real_parts(&m), 2);
    assert_eq!(m.parts[0].refdes, "U5300");
    assert_eq!(m.parts[0].side, Side::Top);
    assert_eq!(m.parts[1].side, Side::Bottom);
    // 3 part pins + 1 nail-as-testpad
    assert_eq!(m.pins.len(), 4);
    let ppbus = m.nets.iter().find(|n| n.name == "PPBUS_G3H").unwrap();
    assert_eq!(ppbus.pins.len(), 2);
    assert!(m.pins.last().unwrap().is_test_pad);
    assert_eq!(m.outline.len(), 3);
    assert_eq!(mils(m.pins[0].pos.x), 100.0);
    assert_eq!(m.pins[3].number, "7");
}

#[test]
fn brd_errors() {
    assert!(matches!(brd::parse(b"just text\n"), Err(ParseError::Unrecognized)));
    let too_many = "var_data:\n0 1 0 0\nParts:\nU1 5 0\nU2 5 0\n";
    assert!(matches!(brd::parse(too_many.as_bytes()), Err(ParseError::Malformed(_))));
    let bad_pin = "Parts:\nU1 5 0\nPins:\n1 2 3 9 NET\n";
    assert!(matches!(brd::parse(bad_pin.as_bytes()), Err(ParseError::Malformed(_))));
    // Lenovo variant: a pin without a net takes the net of its probe's nail.
    let lenovo = "Parts:\nU1 5 0\nPins:\n1 2 7 1\nNails:\n7 5 5 1 PP5V\n";
    let m = brd::parse(lenovo.as_bytes()).unwrap();
    assert_eq!(m.nets[m.pins[0].net as usize].name, "PP5V");
}

const BRD2_SAMPLE: &str = "\
BRDOUT: 4 1000 800
0 0
1000 0
1000 800
0 800
NETS: 2
1 PPBUS_G3H
2 GND
PARTS: 2
U1 0 0 10 10 0 1
J5 0 0 10 10 2 2
PINS: 4
100 100 1 1
110 100 2 1
500 100 1 2
510 100 2 2
NAILS: 1
3 600 700 1 1
";

#[test]
fn verifies_and_parses() {
    assert!(brd2::verify(BRD2_SAMPLE.as_bytes()));
    let m = brd2::parse(BRD2_SAMPLE.as_bytes()).unwrap();
    assert_eq!(real_parts(&m), 2);
    // Bottom-side pins get unflipped: stored y=100 => real y=700.
    let j5_pins: Vec<_> = m.parts[1].pins.iter().map(|&i| &m.pins[i as usize]).collect();
    assert_eq!(mils(j5_pins[0].pos.y), 700.0);
    let ppbus = m.nets.iter().find(|n| n.name == "PPBUS_G3H").unwrap();
    assert_eq!(ppbus.pins.len(), 3); // 2 pins + 1 nail
}

fn bdv_sample() -> String {
    let headers8 = "h\n".repeat(8);
    let headers7 = "h\n".repeat(7);
    format!(
        "<<format.asc>>\n{headers8}0.0 0.0\n10.5 0.0\n10.5 8.0\n0.0 8.0\n\
         <<pins.asc>>\n{headers8}Part U5300 (T)\n1 A1 1.0 2.0 1 PPBUS_G3H 0\n2 A2 1.1 2.0 1 GND 0\n\
         Part C7010 (B)\n1 1 5.0 3.0 2 PPBUS_G3H 0\n\
         <<nails.asc>>\n{headers7}$1 6.0 1.0 0 g1 (T) 5 PP3V3_S5\n"
    )
}

#[test]
fn parses_plain_sample() {
    let s = bdv_sample();
    assert!(bdv::verify(s.as_bytes()));
    let m = bdv::parse(s.as_bytes()).unwrap();
    assert_eq!(real_parts(&m), 2);
    assert_eq!(m.parts[0].refdes, "U5300");
    assert_eq!(m.parts[1].side, Side::Bottom);
    assert_eq!(mils(m.pins[0].pos.x), 1000.0);
    let ppbus = m.nets.iter().find(|n| n.name == "PPBUS_G3H").unwrap();
    assert_eq!(ppbus.pins.len(), 2);
    assert!(m.pins.last().unwrap().is_test_pad);
}

#[test]
fn decode_is_self_inverse_and_encoded_sample_parses() {
    let s = bdv_sample().replace('\n', "\r\n");
    let mut enc = s.as_bytes().to_vec();
    bdv::decode(&mut enc);
    assert!(fbv::text::find_in_buf("dd:1.3?,r?-=bb", &enc));
    let mut roundtrip = enc.clone();
    bdv::decode(&mut roundtrip);
    assert_eq!(roundtrip, s.as_bytes());
    let m = bdv::parse(&enc).unwrap();
    assert_eq!(real_parts(&m), 2);
}

#[test]
fn v3_key_value_records() {
    let s = "\
BVRAW_FORMAT_3
OUTLINE_SEGMENTED 0 0 1000 0 1000 0 1000 800
PART_NAME U5300
PART_SIDE T
PART_ORIGIN 100 200
PART_MOUNT SMD
PIN_ID 1
PIN_NUMBER 1
PIN_NAME VIN
PIN_SIDE T
PIN_ORIGIN 5 5
PIN_RADIUS 3
PIN_NET PPBUS_G3H
PIN_END
PART_END
";
    assert!(bvr::verify_v3(s.as_bytes()));
    let m = bvr::parse_v3(s.as_bytes()).unwrap();
    assert_eq!(m.parts.len(), 1);
    assert_eq!(m.pins.len(), 1);
    assert_eq!(mils(m.pins[0].pos.x), 105.0);
    assert_eq!(m.pins[0].number, "1");
    assert_eq!(m.nets[0].name, "PPBUS_G3H");
    assert_eq!(m.outline.len(), 2);
    assert_eq!(m.pins[0].radius, 3000);
}

#[test]
fn v1_sections() {
    let s = "\
BVRAW_FORMAT_1
<<Layout>>
skip
0.0,0.0
10.0,8.0
<<Pin>>
skip
U5300 (T) 1 A1 1.0 2.0 1 PPBUS_G3H
U5300 (T) 2 A2 1.1 2.0 1 GND
C1 (B) 1 1 3.0 3.0 2 PPBUS_G3H
";
    assert!(bvr::verify_v1(s.as_bytes()));
    let m = bvr::parse_v1(s.as_bytes()).unwrap();
    assert_eq!(m.parts.len(), 2);
    assert_eq!(m.parts[0].pins.len(), 2);
    assert_eq!(mils(m.pins[0].pos.x), 1000.0);
}

const CAD_SAMPLE: &str = "\
###Panel Added
COMP U5300 TPS51225 x x 1.0 2.0 1 0
C_PIN U5300-1 1.00 2.00 0 0 0 x /PPBUS_G3H
C_PIN U5300-2 1.05 2.00 0 0 0 x /GND
COMP C100 CAP x x 3.0 2.0 2 0
C_PIN C100-1 3.00 2.00 0 0 0 x /PPBUS_G3H
NET /PP3V3_S5 x
N_VIA 4.0 1.0 x 1 0
";

#[test]
fn cad_parses_sample() {
    assert!(cad::verify(CAD_SAMPLE.as_bytes()));
    let m = cad::parse(CAD_SAMPLE.as_bytes()).unwrap();
    assert_eq!(real_parts(&m), 2);
    assert_eq!(mils(m.pins[0].pos.x), 1000.0);
    assert_eq!(m.pins[0].number, "1");
    let ppbus = m.nets.iter().find(|n| n.name == "PPBUS_G3H").unwrap();
    assert_eq!(ppbus.pins.len(), 2);
    let via_net = m.nets.iter().find(|n| n.name == "PP3V3_S5").unwrap();
    assert_eq!(via_net.pins.len(), 1);
    assert!(!m.outline.is_empty());
}

#[test]
fn cad_unknown_part_and_net_cleaning() {
    let bad = "###Panel Added\nC_PIN X1-1 1 2 0 0 0 x /N\n";
    assert!(matches!(cad::parse(bad.as_bytes()), Err(ParseError::Malformed(_))));
    assert_eq!(cad::clean_net("/VCC".to_string()), "VCC");
    assert_eq!(cad::clean_net("VCC".to_string()), "VCC");
    assert_eq!(cad::clean_net("A/B".to_string()), "/B");
}

fn cst_sample() -> Vec<u8> {
    let mut v = Vec::new();
    v.extend_from_slice(&2u16.to_le_bytes());
    v.extend_from_slice(&[0; 4]);
    v.extend_from_slice(&4u16.to_le_bytes());
    v.extend_from_slice(b"Comp");
    v.push(5);
    v.extend_from_slice(b"U5300");
    v.extend_from_slice(&[0; 4]);
    v.push(0x0c);
    v.extend_from_slice(&[0; 6]);
    v.push(4);
    v.extend_from_slice(b"C100");
    v.extend_from_slice(&[0; 4]);
    v.push(0x01);
    v.extend_from_slice(&[0; 6]);
    let net_count_pos = v.len() - 2;
    v[net_count_pos..net_count_pos + 2].copy_from_slice(&2u16.to_le_bytes());
    v.push(9);
    v.extend_from_slice(b"PPBUS_G3H");
    v.push(3);
    v.extend_from_slice(b"GND");
    v.extend_from_slice(&3u16.to_le_bytes());
    v.extend_from_slice(&[0; 6]);
    v.extend_from_slice(b"CPad");
    for (part, net, x) in [(0i16, 0i16, 100i16), (0, 1, 110), (1, 0, 500)] {
        v.extend_from_slice(&part.to_le_bytes());
        v.extend_from_slice(&1i16.to_le_bytes());
        v.extend_from_slice(&net.to_le_bytes());
        v.extend_from_slice(&x.to_le_bytes());
        v.extend_from_slice(&200i16.to_le_bytes());
        v.extend_from_slice(&0i16.to_le_bytes());
        v.extend_from_slice(&[0; 4]);
    }
    v
}

#[test]
fn parses_synthetic_cst() {
    let m = cst::parse(&cst_sample()).unwrap();
    assert_eq!(real_parts(&m), 2);
    assert_eq!(m.parts[0].refdes, "U5300");
    let ppbus = m.nets.iter().find(|n| n.name == "PPBUS_G3H").unwrap();
    assert_eq!(ppbus.pins.len(), 2);
    assert!(!m.outline.is_empty());
}

#[test]
fn garbage_is_rejected_not_panicking() {
    assert!(cst::parse(b"").is_err());
    assert!(cst::parse(&[0xff; 64]).is_err());
    assert!(cst::parse(b"\x02\x00short").is_err());
}

fn asc_context() -> ParseContext {
    let h8 = "h\n".repeat(8);
    let h7 = "h\n".repeat(7);
    ParseContext {
        fz_key: None,
        xzz_key: None,
        siblings: Some(AscSiblings {
            format: Some(format!("first\n{h8}0.0 0.0\n10.0 0.0\n10.0 8.0\n").into_bytes()),
            pins: Some(
                format!("first\n{h8}Part U1 (T)\n1 1 1.0 2.0 1 PPBUS_G3H 0\n1 2 1.1 2.0 1 GND 0\n").into_bytes(),
            ),
            nails: Some(format!("first\n{h7}$1 6.0 1.0 0 g (B) 5 PP3V3_S5\n").into_bytes()),
        }),
    }
}

#[test]
fn loads_sibling_files() {
    let ctx = asc_context();
    let entry = ctx.siblings.as_ref().unwrap().pins.clone().unwrap();
    let m = asc::parse(&entry, &ctx).unwrap();
    assert_eq!(real_parts(&m), 1);
    assert_eq!(m.parts[0].pins.len(), 2);
    assert_eq!(mils(m.pins[0].pos.x), 1000.0);
    let tp = m.pins.iter().find(|p| p.is_test_pad).unwrap();
    assert_eq!(tp.side, Side::Bottom);
}

#[test]
fn missing_siblings_is_io_error() {
    let ctx = ParseContext {
        fz_key: None,
        xzz_key: None,
        siblings: Some(AscSiblings { format: None, pins: None, nails: None }),
    };
    assert!(matches!(asc::parse(b"", &ctx), Err(ParseError::Io(_))));
    assert!(matches!(asc::parse(b"", &no_keys()), Err(ParseError::Io(_))));
}

const FZ_CONTENT: &str = "\
A!REFDES!CIC!SNAME!MIRROR!ROTATE!
S!U7000!x!sname!NO!0!
S!C7010!x!sname!YES!0!
A!NET_NAME!REFDES!PIN_NUMBER!PIN_NAME!PIN_X!PIN_Y!TEST_POINT!RADIUS!
S!PPBUS_G3H!U7000!1!VIN!100.5!200.0!!600!
S!GND!U7000!2!GND!110.5!200.0!!600!
S!PPBUS_G3H!C7010!0!A1!300.0!50.0!!748!
A!TESTVIA!
S!Y!PP3V3_S5!U7000!0!!400.0!80.0!T!6!
";

const FZ_DESCR: &str = "\
board description line
PARTNUMBER\tDESCRIPTION\tQTY\tLOCATIONS\tPARTNUMBER2
TPS51225\tbuck controller 2ch\t1\tU7000\tTPS51225C\
";

fn deflate(data: &[u8]) -> Vec<u8> {
    let mut enc = flate2::write::ZlibEncoder::new(Vec::new(), flate2::Compression::default());
    enc.write_all(data).unwrap();
    enc.finish().unwrap()
}

fn build_plain_fz() -> Vec<u8> {
    let content_z = deflate(FZ_CONTENT.as_bytes());
    let descr_z = deflate(FZ_DESCR.as_bytes());
    let mut v = vec![0u8; 4];
    v.extend_from_slice(&content_z);
    v.extend_from_slice(&descr_z);
    let descr_size = (descr_z.len() + 8) as u32;
    v.extend_from_slice(&descr_size.to_le_bytes());
    v
}

#[test]
fn parses_plain_fz_with_part_numbers() {
    let m = fz::parse(&build_plain_fz(), &no_keys()).unwrap();
    assert_eq!(real_parts(&m), 2);
    let u7000 = &m.parts[0];
    assert_eq!(u7000.refdes, "U7000");
    assert_eq!(u7000.mfg_code.as_deref(), Some("TPS51225"));
    assert_eq!(u7000.value.as_deref(), Some("buck controller 2ch"));
    assert_eq!(m.parts[1].side, Side::Bottom);
    let c7010_pin = &m.pins[m.parts[1].pins[0] as usize];
    assert_eq!(c7010_pin.number, "A1");
    let ppbus = m.nets.iter().find(|n| n.name == "PPBUS_G3H").unwrap();
    assert_eq!(ppbus.pins.len(), 2);
    assert!(m.pins.iter().any(|p| p.is_test_pad));
}

const KEY_PARITY: [u32; 44] = [
    0, 1, 1, 0, 1, 0, 1, 0, 0, 0, 1, 0, 0, 1, 1, 0, 1, 1, 0, 1, 0, 0, 0, 1, 1, 1, 0, 0, 0, 1, 0, 0, 0, 1, 0, 0,
    0, 1, 0, 0, 1, 1, 0, 1,
];

/// The cipher's encrypting direction: the keystream depends on previous
/// ciphertext, which encryption must feed back.
fn fz_encode(data: &mut [u8], key: &[u32; 44]) {
    let (mut a, mut b, mut c, mut d) = (0u32, 0u32, 0u32, 0u32);
    let mut ibuf = [0u8; 16];
    for pos in 0..data.len() {
        b = b.wrapping_add(key[0]);
        d = d.wrapping_add(key[1]);
        for i in 1..=20 {
            let t = b.wrapping_mul(b.wrapping_mul(2).wrapping_add(1)).rotate_left(5);
            let u = d.wrapping_mul(d.wrapping_mul(2).wrapping_add(1)).rotate_left(5);
            a = (a ^ t).rotate_left(u & 31).wrapping_add(key[2 * i]);
            c = (c ^ u).rotate_left(t & 31).wrapping_add(key[2 * i + 1]);
            let tmp = a;
            a = b;
            b = c;
            c = d;
            d = tmp;
        }
        a = a.wrapping_add(key[42]);
        let cipher = data[pos] ^ (a & 0xff) as u8;
        data[pos] = cipher;
        ibuf.copy_within(1.., 0);
        ibuf[15] = cipher;
        a = u32::from_le_bytes([ibuf[0], ibuf[1], ibuf[2], ibuf[3]]);
        b = u32::from_le_bytes([ibuf[4], ibuf[5], ibuf[6], ibuf[7]]);
        c = u32::from_le_bytes([ibuf[8], ibuf[9], ibuf[10], ibuf[11]]);
        d = u32::from_le_bytes([ibuf[12], ibuf[13], ibuf[14], ibuf[15]]);
    }
}

fn fz_test_key() -> [u32; 44] {
    let mut key = [0u32; 44];
    for (i, w) in key.iter_mut().enumerate() {
        let mut v = 0x9e37_79b9u32.wrapping_mul(i as u32 + 1);
        let parity_ok = |x: u32| {
            let mut t = x;
            t ^= t >> 16;
            t ^= t >> 8;
            t ^= t >> 4;
            t ^= t >> 2;
            t ^= t >> 1;
            ((!t) & 1) == KEY_PARITY[i]
        };
        if !parity_ok(v) {
            v ^= 1;
        }
        *w = v;
    }
    key
}

#[test]
fn parses_encrypted_fz() {
    let key = fz_test_key();
    assert!(fz::check_key(&key));
    let mut data = build_plain_fz();
    fz_encode(&mut data, &key);
    assert!(!(data[4] == 0x78 && (data[5] == 0x9c || data[5] == 0xda)));
    let ctx = ParseContext { fz_key: Some(key), ..Default::default() };
    let m = fz::parse(&data, &ctx).unwrap();
    assert_eq!(real_parts(&m), 2);
    assert!(matches!(fz::parse(&data, &no_keys()), Err(ParseError::KeyMissing("FZ"))));
    let mut wrong = key;
    wrong[0] ^= 1;
    assert!(!fz::check_key(&wrong));
    let bad = ParseContext { fz_key: Some(wrong), ..Default::default() };
    assert!(matches!(fz::parse(&data, &bad), Err(ParseError::KeyMissing("FZ"))));
}

#[test]
fn fz_short_and_bad_trailer() {
    assert!(matches!(fz::parse(b"short", &no_keys()), Err(ParseError::Malformed(_))));
    let mut v = build_plain_fz();
    let n = v.len();
    v[n - 4..].copy_from_slice(&u32::MAX.to_le_bytes());
    assert!(matches!(fz::parse(&v, &no_keys()), Err(ParseError::Malformed(_))));
}

const XZZ_TEST_KEY: u64 = 0x0100_0000_0000_0000;

fn des_encrypt(data: &[u8], key: u64) -> Vec<u8> {
    let des = des::Des::new_from_slice(&key.to_be_bytes()).unwrap();
    let mut out = Vec::new();
    for chunk in data.chunks(8) {
        let mut block = [0u8; 8];
        block[..chunk.len()].copy_from_slice(chunk);
        let mut ga = *des::cipher::generic_array::GenericArray::from_slice(&block);
        des.encrypt_block(&mut ga);
        out.extend_from_slice(&ga);
    }
    out
}

fn u32le(v: u32) -> [u8; 4] {
    v.to_le_bytes()
}

fn build_part_block(refdes: &str, pins: &[(&str, u32, u32, u32)]) -> Vec<u8> {
    let mut body = Vec::new();
    body.extend_from_slice(&[0u8; 18]);
    body.extend_from_slice(&u32le(0));
    body.push(0x06);
    body.extend_from_slice(&[0u8; 30]);
    body.extend_from_slice(&u32le(refdes.len() as u32));
    body.extend_from_slice(refdes.as_bytes());
    for (num, x, y, net) in pins {
        let name = num.as_bytes();
        let mut pb = Vec::new();
        pb.extend_from_slice(&[0u8; 4]);
        pb.extend_from_slice(&u32le(*x));
        pb.extend_from_slice(&u32le(*y));
        pb.extend_from_slice(&[0u8; 8]);
        pb.extend_from_slice(&u32le(name.len() as u32));
        pb.extend_from_slice(name);
        pb.extend_from_slice(&[0u8; 32]);
        pb.extend_from_slice(&u32le(*net));
        body.push(0x09);
        body.extend_from_slice(&u32le(pb.len() as u32));
        body.extend_from_slice(&pb);
    }
    let mut plain = Vec::new();
    plain.extend_from_slice(&u32le(body.len() as u32));
    plain.extend_from_slice(&body);
    des_encrypt(&plain, XZZ_TEST_KEY)
}

fn build_xzz(xor_key: u8) -> Vec<u8> {
    let mut net_block = Vec::new();
    for (idx, name) in [(1u32, "PPBUS_G3H"), (2, "GND"), (3, "NC")] {
        net_block.extend_from_slice(&u32le(8 + name.len() as u32));
        net_block.extend_from_slice(&u32le(idx));
        net_block.extend_from_slice(name.as_bytes());
    }
    let mut main = Vec::new();
    let mut seg = Vec::new();
    seg.extend_from_slice(&u32le(28));
    for v in [0u32, 0, 10_000_000, 8_000_000] {
        seg.extend_from_slice(&u32le(v));
    }
    seg.extend_from_slice(&u32le(1));
    seg.extend_from_slice(&u32le(0));
    main.push(0x05);
    main.extend_from_slice(&u32le(seg.len() as u32));
    main.extend_from_slice(&seg);
    let part = build_part_block("U5300", &[("A1", 1_000_000, 2_000_000, 1), ("A2", 1_100_000, 2_000_000, 2)]);
    main.push(0x07);
    main.extend_from_slice(&u32le(part.len() as u32));
    main.extend_from_slice(&part);
    let mut pad = Vec::new();
    pad.extend_from_slice(&u32le(7));
    pad.extend_from_slice(&u32le(4_000_000));
    pad.extend_from_slice(&u32le(500_000));
    pad.extend_from_slice(&[0u8; 8]);
    pad.extend_from_slice(&u32le(3));
    pad.extend_from_slice(b"TP1");
    pad.extend_from_slice(&u32le(1));
    main.push(0x09);
    main.extend_from_slice(&u32le(pad.len() as u32));
    main.extend_from_slice(&pad);
    let mut v = Vec::new();
    v.extend_from_slice(b"XZZPCB");
    v.resize(0x30, 0);
    let main_start = 0x40usize;
    let net_start = main_start + 4 + main.len();
    v[0x10] = 0;
    v[0x20..0x24].copy_from_slice(&u32le((main_start - 0x20) as u32));
    v[0x28..0x2c].copy_from_slice(&u32le((net_start - 0x20) as u32));
    v.resize(main_start, 0);
    v.extend_from_slice(&u32le(main.len() as u32));
    v.extend_from_slice(&main);
    v.extend_from_slice(&u32le(net_block.len() as u32));
    v.extend_from_slice(&net_block);
    if xor_key != 0 {
        for b in v.iter_mut() {
            *b ^= xor_key;
        }
        v[0x10] = xor_key;
    }
    v
}

/// The sample outline holds straight segments only.
fn xzz_parse(data: &[u8], ctx: &ParseContext) -> Result<BoardModel, ParseError> {
    let scan = xzz::scan(data, ctx)?;
    let mut segs: Vec<(Point, Point)> = Vec::new();
    for e in &scan.outline {
        match e {
            xzz::XzzEdge::Segment(a, b) => segs.push((*a, *b)),
            xzz::XzzEdge::Arc(_) => panic!("no arcs in the sample"),
        }
    }
    xzz::assemble(scan, &segs)
}

#[test]
fn parses_plain_and_xored() {
    for xor_key in [0u8, 0x5a] {
        let data = build_xzz(xor_key);
        assert!(xzz::verify(&data), "verify failed for xor {xor_key:#x}");
        let ctx = ParseContext { xzz_key: Some(XZZ_TEST_KEY), ..Default::default() };
        let m = xzz_parse(&data, &ctx).unwrap();
        let real: Vec<_> = m.parts.iter().filter(|p| !p.is_dummy).collect();
        assert_eq!(real.len(), 1);
        assert_eq!(real[0].refdes, "U5300");
        assert_eq!(real[0].pins.len(), 2);
        assert_eq!(mils(m.pins[0].pos.x), 100.0);
        assert_eq!(m.pins[0].number, "A1");
        let ppbus = m.nets.iter().find(|n| n.name == "PPBUS_G3H").unwrap();
        assert_eq!(ppbus.pins.len(), 2);
        assert!(m.pins.iter().any(|p| p.is_test_pad));
    }
}

#[test]
fn missing_key_reports_key_missing() {
    let data = build_xzz(0);
    assert!(matches!(xzz_parse(&data, &no_keys()), Err(ParseError::KeyMissing("XZZ"))));
}

#[test]
fn key_parity() {
    assert!(xzz::check_key(XZZ_TEST_KEY));
    assert!(!xzz::check_key(0xdead_beef_dead_beef));
}

#[test]
fn xzz_rd_u32_bounds() {
    assert_eq!(xzz::rd_u32(&[1, 2, 3, 4, 5], 1).unwrap(), 0x0504_0302);
    assert!(xzz::rd_u32(&[1, 2, 3], 0).is_err());
    assert!(matches!(xzz::scan(b"not a board", &no_keys()), Err(ParseError::Unrecognized)));
}

#[test]
fn verifies() {
    let sample = "$HEADER\nGENCAD 1.4\nUNITS THOU\n$ENDHEADER\n";
    assert!(gencad::verify(sample.as_bytes()));
    assert!(!gencad::verify(b"COMP U1\nC_PIN U1-1 1 2"));
}

#[test]
fn gencad_statement_text() {
    assert_eq!(gencad::tokens("SHAPE \"small cap\" 0 0"), vec!["SHAPE", "small cap", "0", "0"]);
    assert_eq!(gencad::rest_after_keyword("  SIGNAL SOME NET WITH SPACES  "), "SOME NET WITH SPACES");
    assert_eq!(gencad::rest_after_keyword("DEVICE \"CAP 100NF\""), "CAP 100NF");
    assert_eq!(gencad::rest_after_keyword("ALONE"), "");
}

#[test]
fn detection_prefers_signatures_over_extensions() {
    assert_eq!(detect(BRD_SAMPLE.as_bytes(), Some("cst")), Some(fbv::model::BoardFormat::Brd));
    assert_eq!(detect(b"????", Some("FZ")), Some(fbv::model::BoardFormat::Fz));
    assert_eq!(detect(b"????", Some("Asc")), Some(fbv::model::BoardFormat::Asc));
    assert_eq!(detect(b"????", Some("txt")), None);
    assert_eq!(detect(b"????", None), None);
    assert_eq!(detect(&build_xzz(0), Some("brd")), Some(fbv::model::BoardFormat::XzzPcb));
}

#[test]
fn parse_error_messages() {
    assert_eq!(ParseError::Unrecognized.message(), "unrecognized boardview format");
    assert_eq!(ParseError::Malformed("x".into()).message(), "malformed file: x");
    assert_eq!(
        ParseError::KeyMissing("XZZ").message(),
        "XZZ file is encrypted and no valid XZZ key is configured in Settings"
    );
    assert_eq!(ParseError::Io("gone".into()).message(), "I/O error: gone");
}

#[test]
fn xzz_scan_reads_every_record() {
    let ctx = ParseContext { xzz_key: Some(XZZ_TEST_KEY), ..Default::default() };
    let scan = xzz::scan(&build_xzz(0x33), &ctx).unwrap();
    let nets: Vec<(u32, &str)> = scan.nets.iter().map(|(i, n)| (*i, n.as_str())).collect();
    assert_eq!(nets, vec![(1, "PPBUS_G3H"), (2, "GND"), (3, "NC")]);
    assert_eq!(scan.outline.len(), 1);
    match &scan.outline[0] {
        xzz::XzzEdge::Segment(a, b) => {
            assert_eq!((a.x, a.y), (0, 0));
            assert_eq!((mils(b.x), mils(b.y)), (1000.0, 800.0));
        }
        xzz::XzzEdge::Arc(_) => panic!("the sample outline is one segment"),
    }
    assert_eq!(scan.parts.len(), 1);
    assert_eq!(scan.parts[0].0, "U5300");
    let pins: Vec<(u32, u32, &str, u32)> =
        scan.parts[0].1.iter().map(|p| (p.x, p.y, p.number.as_str(), p.net_index)).collect();
    assert_eq!(pins, vec![(100, 200, "A1", 1), (110, 200, "A2", 2)]);
    assert_eq!(scan.test_pads.len(), 1);
    let pad = &scan.test_pads[0];
    assert_eq!((pad.x, pad.y, pad.number.as_str(), pad.net_index), (400, 50, "TP1", 1));
}

#[test]
fn xzz_cut_short_is_malformed() {
    let ctx = ParseContext { xzz_key: Some(XZZ_TEST_KEY), ..Default::default() };
    let data = build_xzz(0);
    assert!(matches!(xzz::scan(&data[..0x30], &ctx), Err(ParseError::Malformed(_))));
    let cut = &data[..data.len() - 3];
    assert!(matches!(xzz::scan(cut, &ctx), Err(ParseError::Malformed(_))));
    let wrong = ParseContext { xzz_key: Some(0x0100_0000_0000_0100), ..Default::default() };
    assert!(matches!(xzz::scan(&data, &wrong), Err(ParseError::KeyMissing("XZZ"))));
}

fn build_fz_from(content: &str, descr: &str) -> Vec<u8> {
    let content_z = deflate(content.as_bytes());
    let descr_z = deflate(descr.as_bytes());
    let mut v = vec![0u8; 4];
    v.extend_from_slice(&content_z);
    v.extend_from_slice(&descr_z);
    v.extend_from_slice(&((descr_z.len() + 8) as u32).to_le_bytes());
    v
}

fn malformed_text(r: Result<BoardModel, ParseError>) -> String {
    match r {
        Err(ParseError::Malformed(m)) => m,
        _ => panic!("expected a malformed-file error"),
    }
}

#[test]
fn malformed_messages_name_the_culprit() {
    let cad_bad = "###Panel Added\nC_PIN X1-1 1 2 0 0 0 x /N\n";
    assert_eq!(malformed_text(cad::parse(cad_bad.as_bytes())), "C_PIN references unknown part X1");
    let fz_bad = "A!NET_NAME!REFDES!\nS!GND!U9!1!GND!1.0!2.0!!600!\n";
    assert_eq!(malformed_text(fz::parse_sections(fz_bad.as_bytes(), b"")), "pin references unknown part U9");
    assert_eq!(malformed_text(cst::parse(&[0u8; 16])), "implausible CST part count 0");
}

#[test]
fn fz_sections_rules() {
    let unknown = "A!NET_NAME!REFDES!\nS!GND!U9!1!GND!1.0!2.0!!600!\n";
    assert!(matches!(fz::parse_sections(unknown.as_bytes(), b""), Err(ParseError::Malformed(_))));
    assert!(matches!(fz::parse_sections(b"S!U1!x!y!NO!0!\n", b""), Err(ParseError::Malformed(_))));
    let mm = "UNIT:millimeters\nA!REFDES!\nS!U1!x!s!NO!0!\nA!NET_NAME!\nS!N1!U1!1!A!1.0!2.0!!100!\n";
    let m = fz::parse_sections(mm.as_bytes(), b"").unwrap();
    assert_eq!(mils(m.pins[0].pos.x), 25.4);
    assert_eq!(mils(m.pins[0].pos.y), 50.8);
    assert_eq!(mils(m.pins[0].radius), 25.4);
}

#[test]
fn fz_decimal_commas_and_description_table() {
    let content = "A!REFDES!\nS!R1!x!s!YES!0!\nA!NET_NAME!\nS!N1!R1!1!A!100,5!20,25!!600!\n";
    let descr = "title\nheader\ns skipped line\nRC0402\t10k 1%\t1\tR1 R9\tX\n";
    let m = fz::parse(&build_fz_from(content, descr), &no_keys()).unwrap();
    assert_eq!(mils(m.pins[0].pos.x), 100.5);
    assert_eq!(mils(m.pins[0].pos.y), 20.25);
    assert_eq!(m.parts[0].side, Side::Bottom);
    assert_eq!(m.parts[0].mfg_code.as_deref(), Some("RC0402"));
    assert_eq!(m.parts[0].value.as_deref(), Some("10k 1%"));
}

fn texts(v: &[&str]) -> Vec<String> {
    v.iter().map(|t| t.to_string()).collect()
}

#[test]
fn gencad_records_of_statements() {
    let s = "$HEADER\nGENCAD 1.4\nUNITS USER 2\n$ENDHEADER\n\
$BOARD\nLINE 0 0 100 0\n$ENDBOARD\n\
$PADS\nPAD P1 ROUND 0\nCIRCLE 0 0 12.5\n$ENDPADS\n\
$PADSTACKS\nPADSTACK PS1 10\nPAD P1 TOP 0 0\nPADSTACK PS1 20\nPAD P1 BOTTOM 0 0\n$ENDPADSTACKS\n\
$SHAPES\nSHAPE \"small cap\"\nPIN 1 PS1 0 0\n$ENDSHAPES\n\
$COMPONENTS\nCOMPONENT C1\nDEVICE CAP 100NF\nPLACE 10 20\nLAYER BOTTOM\nROTATION 90\n\
SHAPE \"small cap\" MIRRORX FLIP\n$ENDCOMPONENTS\n\
$SIGNALS\nSIGNAL SOME NET\nNODE C1 1\n$ENDSIGNALS\n\
$DEVICES\nDEVICE CAP_100NF\nPART GRM155\nVALUE 100nF\n$ENDDEVICES\n\
$ROUTES\nROUTE GND\r\nVIA P1 5 6 TOP\n$ENDROUTES\n";
    let r = gencad::read_records(s.as_bytes()).unwrap();
    assert_eq!(r.units, gencad::GcUnits::User);
    assert_eq!(r.units_scale.as_deref(), Some("2"));
    assert_eq!(r.board.len(), 1);
    assert_eq!(r.board[0].0, gencad::GcDraw::Line);
    assert_eq!(r.board[0].1, texts(&["0", "0", "100", "0"]));
    assert_eq!(r.pad_circles, vec![("P1".to_string(), texts(&["0", "0", "12.5"]))]);
    assert_eq!(r.padstacks.len(), 1);
    let ps = &r.padstacks[0];
    assert_eq!((ps.name.as_str(), ps.top, ps.bottom), ("PS1", false, true));
    assert_eq!(ps.args, texts(&["PS1", "20"]));
    assert_eq!(r.stack_pads, vec![("PS1".to_string(), "P1".to_string()); 2]);
    assert_eq!(r.shapes, texts(&["small cap"]));
    assert_eq!(r.shape_pins, vec![("small cap".to_string(), texts(&["1", "PS1", "0", "0"]))]);
    assert_eq!(r.components.len(), 1);
    let c = &r.components[0];
    assert_eq!(c.refdes, "C1");
    assert_eq!(c.device.as_deref(), Some("CAP 100NF"));
    assert_eq!(c.place, texts(&["10", "20"]));
    assert_eq!(c.rotation, texts(&["90"]));
    assert_eq!(c.shape.as_deref(), Some("small cap"));
    assert_eq!((c.bottom, c.mirror_x, c.mirror_y, c.flip), (true, true, false, true));
    assert_eq!(r.nodes, vec![("C1".to_string(), "1".to_string(), "SOME NET".to_string())]);
    assert_eq!(r.devices.len(), 1);
    assert_eq!(r.devices[0].part.as_deref(), Some("GRM155"));
    assert_eq!(r.devices[0].value.as_deref(), Some("100nF"));
    assert_eq!(gencad::device_for(&r, "CAP 100NF"), Some(0));
    assert_eq!(gencad::device_for(&r, "RES"), None);
    assert_eq!(r.vias, vec![("GND".to_string(), texts(&["P1", "5", "6", "TOP"]))]);
    let labels = gencad::component_labels(&r, c);
    assert_eq!(labels.mfg_code.as_deref(), Some("GRM155"));
    assert_eq!(labels.value.as_deref(), Some("100nF"));
    assert_eq!(labels.package.as_deref(), Some("small cap"));
    let mut unknown = c.clone();
    unknown.device = Some("RES 10K".to_string());
    let labels = gencad::component_labels(&r, &unknown);
    assert_eq!(labels.mfg_code.as_deref(), Some("RES 10K"));
    assert_eq!(labels.value, None);
    assert_eq!(labels.package.as_deref(), Some("small cap"));
    unknown.device = None;
    unknown.shape = None;
    let labels = gencad::component_labels(&r, &unknown);
    assert_eq!((labels.mfg_code, labels.value, labels.package), (None, None, None));
}

#[test]
fn gencad_sides_of_parts_and_pins() {
    assert_eq!(component_side(true, true), Side::Both);
    assert_eq!(component_side(false, true), Side::Bottom);
    assert_eq!(component_side(false, false), Side::Top);
    let top = PadstackInfo { drilled: false, top: true, bottom: false };
    let inner = PadstackInfo { drilled: true, top: false, bottom: false };
    assert_eq!(shape_pin_side(Some(top), Side::Bottom, false), Side::Top);
    assert_eq!(shape_pin_side(Some(top), Side::Bottom, true), Side::Bottom);
    assert_eq!(shape_pin_side(Some(inner), Side::Top, true), Side::Both);
    assert_eq!(shape_pin_side(None, Side::Bottom, false), Side::Bottom);
    assert_eq!(shape_pin_side(None, Side::Bottom, true), Side::Top);
}

#[test]
fn gencad_without_components_or_shapes_is_malformed() {
    let s = "$HEADER\nGENCAD 1.4\n$ENDHEADER\n$SIGNALS\nSIGNAL A\n$ENDSIGNALS\n";
    assert!(matches!(gencad::read_records(s.as_bytes()), Err(ParseError::Malformed(_))));
}

#[test]
fn xzz_net_table_later_entry_wins() {
    let pin = |x: u32, number: &str, net_index: u32| xzz::XzzPin { x, y: 0, number: number.to_string(), net_index };
    let scan = xzz::XzzScan {
        nets: vec![(1, "OLD".to_string()), (2, "VCC".to_string()), (1, "GND".to_string())],
        outline: Vec::new(),
        parts: vec![("U1".to_string(), vec![pin(0, "1", 1), pin(10, "2", 2), pin(20, "3", 7)])],
        test_pads: vec![pin(30, "TP", 2)],
    };
    let m = xzz::assemble(scan, &Vec::new()).unwrap();
    let net_of = |k: usize| {
        let n = m.pins[k].net;
        if n == fbv::model::NO_NET { String::new() } else { m.nets[n as usize].name.clone() }
    };
    assert_eq!(net_of(0), "GND");
    assert_eq!(net_of(1), "VCC");
    assert_eq!(net_of(2), "");
    assert!(m.nets.iter().all(|n| n.name != "OLD"));
}

#[test]
fn dispatcher_hands_each_format_to_its_parser() {
    match fbv::parsers::parse(BoardFormat::Brd, BRD_SAMPLE.as_bytes(), &no_keys()) {
        FormatRead::Board(Ok(m)) => {
            assert_eq!(m.format_label, BoardFormat::Brd.label());
            assert_eq!(m.parts.len(), brd::parse(BRD_SAMPLE.as_bytes()).unwrap().parts.len());
        }
        _ => panic!("a BRD file gives a board"),
    }
    assert!(matches!(
        fbv::parsers::parse(BoardFormat::Cad, b"nothing here", &no_keys()),
        FormatRead::Board(Err(ParseError::Unrecognized))
    ));
    assert!(matches!(fbv::parsers::parse(BoardFormat::XzzPcb, b"short", &no_keys()), FormatRead::Xzz(Err(_))));
    assert!(matches!(fbv::parsers::parse(BoardFormat::GenCad, b"", &no_keys()), FormatRead::GenCad(Err(_))));
}

const GENCAD_BOARD: &str = "$HEADER\nGENCAD 1.4\nUNITS THOU\n$ENDHEADER\n\
$PADSTACKS\nPADSTACK SMD 0\nPAD P1 TOP 0 0\nPADSTACK TH 12\nPAD P1 TOP 0 0\nPAD P1 BOTTOM 0 0\n$ENDPADSTACKS\n\
$SHAPES\nSHAPE CAP\nPIN 1 SMD -10 0\nPIN 2 SMD 10 0\nSHAPE CONN\nPIN A TH 0 0\n$ENDSHAPES\n\
$COMPONENTS\nCOMPONENT C1\nPLACE 100 100\nLAYER TOP\nSHAPE CAP FLIP\n\
COMPONENT C9\nPLACE 100 100\nLAYER TOP\nSHAPE CAP\n\
COMPONENT J1\nPLACE 500 500\nLAYER BOTTOM\nSHAPE CONN\n$ENDCOMPONENTS\n\
$SIGNALS\nSIGNAL OLD\nNODE C1 1\nSIGNAL VCC\nNODE C1 1\nNODE J1 A\nSIGNAL GND\nNODE C1 2\n$ENDSIGNALS\n\
$ROUTES\nROUTE GND\nVIA P1 300 300 TOP\n$ENDROUTES\n";

#[test]
fn gencad_assembles_from_records_and_geometry() {
    let recs = gencad::read_records(GENCAD_BOARD.as_bytes()).unwrap();
    let shapes = ShapeTable::of_records(&recs);
    let drilled = vec![false, true];
    let placed: Vec<GcPlaced> = recs
        .components
        .iter()
        .enumerate()
        .map(|(i, c)| {
            let ids = c.shape.as_deref().and_then(|s| shapes.pins_of(s)).cloned().unwrap_or_default();
            GcPlaced {
                at: (if i == 2 { 500 } else { 100 }, if i == 2 { 500 } else { 100 }),
                pins: ids.iter().map(|&k| (Point { x: 1000 * k as i64, y: 0 }, 5000)).collect(),
            }
        })
        .collect();
    let vias = vec![Point { x: 300_000, y: 300_000 }];
    let m = gencad::assemble(&recs, &Vec::new(), &drilled, &placed, &vias).unwrap();
    assert_eq!(m.format_label, "GenCAD");
    // C9 repeats C1's placement and is left out.
    let names: Vec<&str> = m.parts.iter().filter(|p| !p.is_dummy).map(|p| p.refdes.as_str()).collect();
    assert_eq!(names, vec!["C1", "J1"]);
    assert_eq!(m.parts[0].package.as_deref(), Some("CAP"));
    assert_eq!(m.parts[0].side, Side::Top);
    // J1 uses a drilled padstack: through-hole, on both sides.
    assert_eq!(m.parts[1].side, Side::Both);
    let net_of = |k: usize| {
        let n = m.pins[k].net;
        if n == NO_NET { String::new() } else { m.nets[n as usize].name.clone() }
    };
    // The later NODE for C1 pin 1 wins.
    assert_eq!((m.pins[0].number.as_str(), net_of(0).as_str()), ("1", "VCC"));
    assert_eq!((m.pins[1].number.as_str(), net_of(1).as_str()), ("2", "GND"));
    assert_eq!((m.pins[2].number.as_str(), net_of(2).as_str()), ("A", "VCC"));
    // FLIP turns C1's top-only padstack to the bottom; J1's padstack
    // reaches both sides.
    assert_eq!(m.pins[0].side, Side::Bottom);
    assert_eq!(m.pins[2].side, Side::Both);
    assert_eq!(m.pins.len(), 4);
    assert_eq!(net_of(3), "GND");
    assert!(m.nets.iter().all(|n| n.name != "OLD"));
}
