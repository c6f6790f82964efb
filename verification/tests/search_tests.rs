use fbv::builder::BoardBuilder;
use fbv::model::{BoardFormat, BoardModel, Part, Pin, Point, Side};
use fbv::search::{library_row_shown, build_match, field_column, library_query, search_board, tokenize, InBoardHit};

fn model_with(parts: &[(&str, Option<&str>, &str)]) -> BoardModel {
    let mut b = BoardBuilder::new();
    for (refdes, pn, net_name) in parts {
        let part = b.add_part(Part {
            refdes: refdes.to_string(),
            mfg_code: pn.map(|s| s.to_string()),
            value: None,
            package: Some("BGA".into()),
            side: Side::Top,
            pins: vec![],
            is_dummy: false,
        });
        let net = b.net_id(net_name);
        b.add_pin(Pin {
            part,
            number: "1".into(),
            name: String::new(),
            pos: Point::new(50_000, 60_000),
            radius: 1_000,
            side: Side::Top,
            net,
            is_test_pad: false,
        });
    }
    b.finish(BoardFormat::Brd)
}

#[test]
fn in_board_search_matches_grammar() {
    let m = model_with(&[("U5300", Some("ISL9239"), "PPBUS_G3H"), ("C1234", None, "PPBUS_G3H")]);
    let hits = search_board(&m, "U53");
    assert_eq!(hits, vec![InBoardHit::Part(0)]);
    let hits = search_board(&m, "PPBUS");
    assert_eq!(hits, vec![InBoardHit::Net(0)]);
    let hits = search_board(&m, "net:PPBUS_G3H");
    assert_eq!(hits, vec![InBoardHit::Part(0), InBoardHit::Part(1), InBoardHit::Net(0)]);
}

#[test]
fn in_board_search_fields_and_exactness() {
    let m = model_with(&[("U5300", Some("ISL9239"), "PPBUS_G3H"), ("C1234", None, "PPBUS_G3H")]);
    assert_eq!(search_board(&m, "pn:isl"), vec![InBoardHit::Part(0)]);
    assert_eq!(search_board(&m, "ref:\"U53\""), vec![]);
    assert_eq!(search_board(&m, "ref:\"u5300\""), vec![InBoardHit::Part(0)]);
    assert_eq!(search_board(&m, "pkg:bga u53"), vec![InBoardHit::Part(0)]);
    assert_eq!(search_board(&m, "   "), vec![]);
    assert_eq!(search_board(&m, "board:x"), vec![]);
}

#[test]
fn field_columns() {
    assert_eq!(field_column("REF"), Some("refdes"));
    assert_eq!(field_column("Pn"), Some("part_number"));
    assert_eq!(field_column("oem"), Some("model"));
    assert_eq!(field_column("zzz"), None);
}

#[test]
fn tokenizer_terms() {
    let t = tokenize("ref:U53* \"exact\" net: board:820-00281 *");
    assert_eq!(t.len(), 4);
    assert_eq!((t[0].column, t[0].text.as_str(), t[0].exact), (Some("refdes"), "U53", false));
    assert_eq!((t[1].column, t[1].text.as_str(), t[1].exact), (None, "exact", true));
    // An empty rest after a known field keeps the whole word as text.
    assert_eq!((t[2].column, t[2].text.as_str()), (None, "net:"));
    assert_eq!((t[3].column, t[3].text.as_str()), (Some("board_name"), "820-00281"));
}

#[test]
fn match_expression_quotes_every_term() {
    let t = tokenize("ref:U5300 a\"b \"exact\"");
    assert_eq!(build_match(&t), "refdes: \"U5300\"* \"a\"\"b\"* \"exact\"");
    for q in ["\" OR 1=1 --", "a\"b", "NEAR(", "refdes:*", "((((", "net:\""] {
        let expr = build_match(&tokenize(q));
        // Every literal closes: quotes come in pairs.
        assert_eq!(expr.matches('"').count() % 2, 0, "{expr}");
    }
}

#[test]
fn library_query_compiles_terms_and_boost() {
    assert!(library_query("   ").is_none());
    let (m, boost) = library_query("ref:U5300 \"PP3V3\"").unwrap();
    assert_eq!(m, "refdes: \"U5300\"* \"PP3V3\"");
    assert_eq!(boost, "u5300");
    let (m, boost) = library_query("ÄBC*").unwrap();
    assert_eq!(m, "\"ÄBC\"*");
    assert_eq!(boost, "äbc");
}

fn row(name: &str, oem: Option<&str>, format: &str) -> fbv::data::BoardRow {
    fbv::data::BoardRow {
        board_id: 1,
        sha256: String::new(),
        display_name: name.to_string(),
        model: None,
        oem_code: oem.map(|s| s.to_string()),
        format: format.to_string(),
        part_count: 0,
        net_count: 0,
        pin_count: 0,
        condition: "unknown".to_string(),
        favorite: false,
        path: None,
        missing: false,
    }
}

#[test]
fn library_filter_matches_name_code_and_format() {
    let r = row("MacBook Pro A1708", Some("820-00840"), "BRD");
    assert!(library_row_shown(&r, ""));
    assert!(library_row_shown(&r, "macbook"));
    assert!(library_row_shown(&r, "00840"));
    assert!(library_row_shown(&r, "A1708 820"));
    assert!(library_row_shown(&r, "brd"));
    assert!(!library_row_shown(&r, "fz"));
    let bare = row("Board", None, "FZ");
    assert!(library_row_shown(&bare, "board  fz"));
    assert!(!library_row_shown(&bare, "board fz"));
}
