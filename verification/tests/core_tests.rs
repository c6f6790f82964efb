use fbv::builder::BoardBuilder;
use fbv::identity::{find_oem_code, guess_identity};
use fbv::model::{BoardFormat, Part, Pin, Point, Side, NO_NET};
use fbv::netclass::{is_ground, is_jumper_refdes, is_no_connect, is_power_hint};
use fbv::settings::{parse_fz_key, parse_hex_u64, Settings};
use fbv::tabs::{highlight_map, Selection};

fn mils(v: i64) -> f64 {
    v as f64 / 1000.0
}

fn part(refdes: &str, side: Side) -> Part {
    Part {
        refdes: refdes.to_string(),
        mfg_code: None,
        value: None,
        package: None,
        side,
        pins: vec![],
        is_dummy: false,
    }
}

fn pin(part: u32, net: u32, x: i64, y: i64, radius: i64) -> Pin {
    Pin {
        part,
        number: String::new(),
        name: String::new(),
        pos: Point::new(x, y),
        radius,
        side: Side::Top,
        net,
        is_test_pad: false,
    }
}

#[test]
fn builder_wires_cross_references() {
    let mut b = BoardBuilder::new();
    let p = b.add_part(part("U1", Side::Top));
    let net = b.net_id("PPBUS_G3H");
    let same_net = b.net_id("  PPBUS_G3H ");
    assert_eq!(net, same_net);
    assert_eq!(b.net_id("NC"), NO_NET);
    assert_eq!(b.net_id(""), NO_NET);
    let mut first = pin(p, net, 10_000, 20_000, 5_000);
    first.number = "1".to_string();
    b.add_pin(first);
    let m = b.finish(BoardFormat::Brd);
    assert_eq!(m.parts[0].pins, vec![0]);
    assert_eq!(m.nets[0].pins, vec![0]);
    assert_eq!(m.nets[0].name, "PPBUS_G3H");
}

#[test]
fn generated_outline_wraps_pins() {
    let mut b = BoardBuilder::new();
    let p = b.add_part(part("R1", Side::Top));
    for (x, y) in [(0, 0), (100_000, 50_000)] {
        b.add_pin(pin(p, NO_NET, x, y, 1_000));
    }
    b.generate_outline_from_pins();
    let m = b.finish(BoardFormat::Fz);
    let (min, max) = m.bounds().unwrap();
    assert!(mils(min.x) <= -20.0 && mils(max.x) >= 120.0);
}

#[test]
fn builder_defaults_radius_and_labels_format() {
    let mut b = BoardBuilder::new();
    let p = b.add_part(part("C1", Side::Both));
    b.add_pin(pin(p, NO_NET, 0, 0, 0));
    let mut bottom = pin(p, NO_NET, 5, 5, -3);
    bottom.side = Side::Bottom;
    b.add_pin(bottom);
    let mut bottom2 = pin(p, NO_NET, 6, 6, 7);
    bottom2.side = Side::Bottom;
    b.add_pin(bottom2);
    let m = b.finish(BoardFormat::Cst);
    assert_eq!(m.pins[0].radius, 500);
    assert_eq!(m.pins[1].radius, 500);
    assert_eq!(m.pins[2].radius, 7);
    assert_eq!(m.format_label, "CST");
    // A part marked Both whose pins lean to the bottom takes that side.
    assert_eq!(m.parts[0].side, Side::Bottom);
}

#[test]
fn bounds_of_parts_and_nets() {
    let mut b = BoardBuilder::new();
    let p = b.add_part(part("U2", Side::Top));
    let n = b.net_id("VCC");
    b.add_pin(pin(p, n, -5, 7, 1));
    b.add_pin(pin(p, n, 9, -3, 1));
    let m = b.finish(BoardFormat::Brd);
    let (lo, hi) = m.part_bounds(0).unwrap();
    assert_eq!((lo.x, lo.y, hi.x, hi.y), (-5, -3, 9, 7));
    let (lo, hi) = m.net_bounds(0).unwrap();
    assert_eq!((lo.x, lo.y, hi.x, hi.y), (-5, -3, 9, 7));
    assert!(m.part_bounds(5).is_none());
    assert!(m.net_bounds(3).is_none());
}

#[test]
fn side_and_format_labels() {
    assert_eq!(Side::Top.label(), "top");
    assert_eq!(Side::Bottom.label(), "bottom");
    assert_eq!(Side::Both.label(), "both");
    assert_eq!(BoardFormat::GenCad.label(), "GenCAD");
    assert_eq!(BoardFormat::XzzPcb.label(), "XZZ PCB");
}

#[test]
fn jumper_refdes_heuristic() {
    for good in ["R1234", "L7100", "F6100", "FB2", "FL7310", "PR100", "JP3"] {
        assert!(is_jumper_refdes(good), "{good} should be a jumper candidate");
    }
    for bad in ["U5300", "C1234", "Q6001", "RN12", "FOO", "J1", "", "R"] {
        assert!(!is_jumper_refdes(bad), "{bad} must not be a jumper candidate");
    }
}

#[test]
fn jumper_refdes_accepts_any_text() {
    for odd in ["Ré1", "Fé1", "éR1", "  ", "日本語"] {
        assert!(!is_jumper_refdes(odd), "{odd} must not be a jumper candidate");
    }
    assert!(is_jumper_refdes(" fb2é "));
    assert!(is_jumper_refdes("r1é"));
}

#[test]
fn net_classes() {
    assert!(is_no_connect("nc"));
    assert!(is_ground("GND"));
    assert!(is_power_hint("PPBUS_G3H"));
    assert!(!is_ground("PPBUS_G3H"));
}

#[test]
fn net_class_edges() {
    assert!(is_no_connect("No_Connect"));
    assert!(!is_no_connect("NC1"));
    assert!(is_ground("gnd_sense"));
    assert!(!is_ground("GNDX"));
    assert!(is_power_hint("+5V"));
    assert!(!is_power_hint("SDA"));
}

#[test]
fn apple_code_from_filename() {
    let g = guess_identity("/lib/apple/820-00281-A_MLB.brd");
    assert_eq!(g.oem_code.as_deref(), Some("820-00281"));
    assert_eq!(g.display_name, "820-00281-A MLB");
}

#[test]
fn compal_code_from_parent_folder() {
    let g = guess_identity("/lib/LA-E672P Rev 1.0/mainboard.bdv");
    assert_eq!(g.oem_code.as_deref(), Some("LA-E672P"));
}

#[test]
fn quanta_and_lenovo() {
    assert_eq!(find_oem_code("DA0Z8MMB8D0 schematics"), Some("DA0Z8MMB8D0".into()));
    assert_eq!(find_oem_code("nm-b301 rev1"), Some("NM-B301".into()));
    assert_eq!(find_oem_code("random file"), None);
}

#[test]
fn identity_edges() {
    // Too few digits after the first prefix: the next occurrence is tried.
    assert_eq!(find_oem_code("820-12 and 820-4567"), Some("820-4567".into()));
    // Quanta codes need eight characters.
    assert_eq!(find_oem_code("DA0AB"), None);
    let g = guess_identity("/x/__.brd");
    assert_eq!(g.display_name, "unnamed board");
    assert_eq!(g.oem_code, None);
}

#[test]
fn fz_key_parsing() {
    let text = (0..44).map(|i| format!("0x{i:08x}")).collect::<Vec<_>>().join(" ");
    let key = parse_fz_key(&text).unwrap();
    assert_eq!(key[43], 43);
    assert!(parse_fz_key("0x1 0x2").is_none());
    assert!(parse_fz_key("").is_none());
}

#[test]
fn fz_key_separators_and_overflow() {
    let text = (0..44).map(|i| format!("{i:x}")).collect::<Vec<_>>().join(",;");
    let key = parse_fz_key(&text).unwrap();
    assert_eq!(key[10], 10);
    let mut words: Vec<String> = (0..44).map(|_| "1".to_string()).collect();
    words[3] = "100000000".to_string();
    assert!(parse_fz_key(&words.join(" ")).is_none());
    words[3] = "0x0Xff".to_string();
    assert_eq!(parse_fz_key(&words.join(" ")).unwrap()[3], 0xff);
}

#[test]
fn xzz_key_parsing() {
    assert_eq!(parse_hex_u64("0x0100000000000000"), Some(0x0100000000000000));
    assert_eq!(parse_hex_u64("  "), None);
    assert_eq!(parse_hex_u64("zz"), None);
}

#[test]
fn hex_edges() {
    assert_eq!(parse_hex_u64(" +1F "), Some(0x1f));
    assert_eq!(parse_hex_u64("ffffffffffffffff"), Some(u64::MAX));
    assert_eq!(parse_hex_u64("10000000000000000"), None);
    assert_eq!(parse_hex_u64("0x"), None);
    assert_eq!(parse_hex_u64("-1"), None);
}

#[test]
fn settings_keys() {
    let s = Settings {
        library_roots: vec![],
        fz_key_text: String::new(),
        xzz_key_text: "0x0100000000000000".to_string(),
    };
    let k = s.keys();
    assert!(k.fz_key.is_none());
    assert_eq!(k.xzz_key, Some(0x0100000000000000));
}

/// PPBUS_G3H --[L7100]-- PPBUS_INT --[R1]-- PP3V3, plus GND which must never
/// be entered.
fn jumper_chain() -> fbv::model::BoardModel {
    let mut b = BoardBuilder::new();
    let l = b.add_part(part("L7100", Side::Top));
    let r = b.add_part(part("R1", Side::Top));
    let c = b.add_part(part("C9", Side::Top));
    let ppbus = b.net_id("PPBUS_G3H");
    let int = b.net_id("PPBUS_INT");
    let pp3v3 = b.net_id("PP3V3");
    let gnd = b.net_id("GND");
    b.add_pin(pin(l, ppbus, 0, 0, 1_000));
    b.add_pin(pin(l, int, 10_000, 0, 1_000));
    b.add_pin(pin(r, int, 20_000, 0, 1_000));
    b.add_pin(pin(r, pp3v3, 30_000, 0, 1_000));
    b.add_pin(pin(c, pp3v3, 40_000, 0, 1_000));
    b.add_pin(pin(c, gnd, 50_000, 0, 1_000));
    b.finish(BoardFormat::Brd)
}

#[test]
fn expansion_follows_jumpers_but_not_caps_or_ground() {
    let model = jumper_chain();
    let mut sel = Selection::new();
    let ppbus = model.nets.iter().position(|n| n.name == "PPBUS_G3H").unwrap() as u32;
    sel.select_net(ppbus);

    sel.expansion = 0;
    assert_eq!(highlight_map(&sel, &model).len(), 1);

    sel.expansion = 1;
    let m = highlight_map(&sel, &model);
    assert_eq!(m.len(), 2, "level 1 adds PPBUS_INT only: {m:?}");

    sel.expansion = 3;
    let m = highlight_map(&sel, &model);
    let names: Vec<&str> = m.iter().map(|&(n, _)| model.nets[n as usize].name.as_str()).collect();
    assert_eq!(m.len(), 3, "{names:?}");
    assert!(!names.contains(&"GND"), "must not expand through C9 or into GND");
    let pp3v3 = model.nets.iter().position(|n| n.name == "PP3V3").unwrap() as u32;
    assert_eq!(m.iter().find(|&&(n, _)| n == pp3v3).unwrap().1, 2);
}

#[test]
fn selecting_a_pin_selects_part_and_net() {
    let model = jumper_chain();
    let mut sel = Selection::new();
    sel.select_pin(&model, 3);
    assert_eq!(sel.selected_part, Some(1));
    assert_eq!(sel.selected_net, Some(model.pins[3].net));
    assert!(highlight_map(&Selection::new(), &model).is_empty());
}

#[test]
fn model_checker_accepts_built_and_rejects_broken() {
    let mut b = BoardBuilder::new();
    let p = b.add_part(part("U1", Side::Top));
    let n = b.net_id("PP3V3");
    b.add_pin(pin(p, n, 0, 0, 100));
    b.add_pin(pin(p, NO_NET, 10, 0, 100));
    let mut m = b.finish(BoardFormat::Brd);
    assert!(m.check_wf());
    m.nets[0].pins.push(1);
    assert!(!m.check_wf());
    m.nets[0].pins.pop();
    m.pins[1].part = 7;
    assert!(!m.check_wf());
    m.pins[1].part = 0;
    m.parts[0].pins.reverse();
    assert!(!m.check_wf());
}

#[test]
fn board_rows_index_real_parts_and_every_net() {
    let mut b = BoardBuilder::new();
    let mut u1 = part("U1", Side::Bottom);
    u1.mfg_code = Some("TPS51225".to_string());
    let p = b.add_part(u1);
    let mut dummy = part("...", Side::Top);
    dummy.is_dummy = true;
    b.add_part(dummy);
    let rail = b.net_id("PP3V3_S5");
    let gnd = b.net_id("GND");
    b.add_pin(pin(p, rail, 1_000, 2_000, 500));
    b.add_pin(pin(p, gnd, 5_000, 4_000, 500));
    let m = b.finish(BoardFormat::Brd);
    let rows = fbv::data::board_rows(&m);
    assert_eq!((rows.part_count, rows.net_count, rows.pin_count), (1, 2, 2));
    assert_eq!(rows.parts.len(), 1);
    let r = &rows.parts[0];
    assert_eq!((r.idx, r.refdes.as_str(), r.pin_count), (0, "U1", 2));
    assert_eq!(r.side, Side::Bottom);
    assert_eq!(r.part_number.as_deref(), Some("TPS51225"));
    let (lo, hi) = r.bounds.unwrap();
    assert_eq!((lo.x, lo.y, hi.x, hi.y), (1_000, 2_000, 5_000, 4_000));
    let nets: Vec<(usize, &str, usize, bool)> =
        rows.nets.iter().map(|n| (n.idx, n.name.as_str(), n.pin_count, n.is_power)).collect();
    assert_eq!(nets, vec![(0, "PP3V3_S5", 1, true), (1, "GND", 1, false)]);
}

#[test]
fn busiest_nets_first_ties_in_model_order() {
    let mut b = BoardBuilder::new();
    let p = b.add_part(part("U1", Side::Top));
    let a = b.net_id("A");
    let big = b.net_id("BIG");
    let c = b.net_id("C");
    for (net, n) in [(a, 1), (big, 3), (c, 1)] {
        for k in 0..n {
            b.add_pin(pin(p, net, k, 0, 500));
        }
    }
    let m = b.finish(BoardFormat::Brd);
    assert_eq!(fbv::tabs::busiest_nets(&m, 400), vec![1, 0, 2]);
    assert_eq!(fbv::tabs::busiest_nets(&m, 2), vec![1, 0]);
    assert_eq!(fbv::tabs::busiest_nets(&m, 0), Vec::<usize>::new());
}

#[test]
fn pin_labels_show_number_and_net() {
    let mut b = BoardBuilder::new();
    let p = b.add_part(part("U1", Side::Top));
    let net = b.net_id("PPBUS_G3H");
    let mut numbered = pin(p, net, 0, 0, 500);
    numbered.number = "A1".to_string();
    b.add_pin(numbered);
    b.add_pin(pin(p, NO_NET, 10, 0, 500));
    let m = b.finish(BoardFormat::Brd);
    assert_eq!(fbv::tabs::pin_label(&m, 0), "A1 \u{2192} PPBUS_G3H");
    assert_eq!(fbv::tabs::pin_label(&m, 1), "(nc)");
}

#[test]
fn expansion_list_by_level_then_name() {
    let mut b = BoardBuilder::new();
    let p = b.add_part(part("U1", Side::Top));
    let root = b.net_id("ROOT");
    let zeta = b.net_id("ZETA");
    let alpha = b.net_id("ALPHA");
    let mid = b.net_id("MID");
    for n in [root, zeta, alpha, mid] {
        b.add_pin(pin(p, n, 0, 0, 500));
    }
    let m = b.finish(BoardFormat::Brd);
    let entries = vec![(root, 0u8), (zeta, 1), (mid, 2), (alpha, 1)];
    assert_eq!(fbv::tabs::expansion_order(&m, &entries), vec![3, 1, 2]);
    assert_eq!(fbv::tabs::expansion_order(&m, &vec![(root, 0u8)]), Vec::<usize>::new());
}

#[test]
fn hex_key_text_reads_back() {
    for v in [0u64, 1, 0xf, 0x10, 0xdead_beef, 0x0123_4567_89ab_cdef, u64::MAX] {
        assert_eq!(parse_hex_u64(&format!("{v:x}")), Some(v));
        assert_eq!(parse_hex_u64(&format!("0x{v:x}")), Some(v));
        assert_eq!(parse_hex_u64(&format!(" 0x{v:x}\n")), Some(v));
        assert_eq!(parse_hex_u64(&format!(" {v:X}\n")), Some(v));
        assert_eq!(parse_hex_u64(&format!("0X{v:016x}")), Some(v));
    }
}

#[test]
fn net_id_interns_each_name_once() {
    let mut b = BoardBuilder::new();
    let a = b.net_id("GND");
    let v = b.net_id(" VCC\t");
    assert_eq!((a, v), (0, 1));
    assert_eq!(b.net_id("VCC"), v);
    assert_eq!(b.net_id("  GND  "), a);
    assert_eq!(b.net_id("nc"), NO_NET);
    assert_eq!(b.net_id("   "), NO_NET);
    let m = b.finish(BoardFormat::Brd);
    let names: Vec<&str> = m.nets.iter().map(|n| n.name.as_str()).collect();
    assert_eq!(names, vec!["GND", "VCC"]);
}
