use duplex::alg::Mirror;
use duplex::candidates::{
    decode_members, is_json_file_name, load_csv, load_entries, load_json, AlgEntry, LoadError,
};
use duplex::json::JsonValue;
use duplex::search::moves_to_string;

fn describe(e: &LoadError) -> (u8, usize, String) {
    match e {
        LoadError::Format(n, t) => (0, *n, t.clone()),
        LoadError::UnknownMirror(n, t) => (1, *n, t.clone()),
        LoadError::UnknownInvert(n, t) => (2, *n, t.clone()),
        LoadError::BadMoves(n, t) => (3, *n, t.clone()),
        LoadError::BadEntry(n, t) => (4, *n, t.clone()),
        LoadError::BadField(n, t) => (5, *n, t.clone()),
    }
}

#[test]
fn load_csv_reads_a_row() {
    let (cands, errs) = load_csv("R U R' U R U2 R',lr,yes\n");
    assert!(errs.is_empty());
    assert_eq!(cands.len(), 1);
    let c = &cands[0];
    assert_eq!(c.label, "R U R' U R U2 R'");
    assert_eq!(c.cost_moves, 7);
    assert_eq!(c.variants.len(), 4);
    assert_eq!(c.variants[0].name, "RUR'URU2R'");
    assert_eq!(moves_to_string(&c.variants[2].moves), "L' U' L U' L' U2 L");
}

#[test]
fn load_csv_trims_and_ignores_case() {
    let (cands, errs) = load_csv("  \r\n F R U R' U' F' , FB , No \r\nR U R',,\n\n");
    assert!(errs.is_empty());
    assert_eq!(cands.len(), 2);
    assert_eq!(cands[0].label, "F R U R' U' F'");
    assert_eq!(cands[0].variants.len(), 2);
    assert!(cands[0].variants[1].mirror);
    assert_eq!(cands[1].variants.len(), 1);
}

#[test]
fn load_csv_reports_each_error() {
    let content = "R U R'\nR U,sideways,no\nR U,no,maybe\nR Q,no,no\nR U,NO,YES,extra\n";
    let (cands, errs) = load_csv(content);
    assert_eq!(cands.len(), 1);
    assert_eq!(cands[0].variants.len(), 2);
    let shown: Vec<(u8, usize, String)> = errs.iter().map(describe).collect();
    assert_eq!(
        shown,
        vec![
            (0, 1, "R U R'".to_string()),
            (1, 2, "sideways".to_string()),
            (2, 3, "maybe".to_string()),
            (3, 4, "R Q\n  ^ parse error at position 3".to_string()),
        ]
    );
}

#[test]
fn load_csv_empty_content() {
    let (cands, errs) = load_csv("");
    assert!(cands.is_empty() && errs.is_empty());
}

#[test]
fn load_entries_labels_and_errors() {
    let entries = vec![
        AlgEntry { number: 1, name: Some("sune".to_string()), moves: "R U R' U R U2 R'".to_string(), mirror: None, invert: true },
        AlgEntry { number: 2, name: None, moves: "F R U R' U' F'".to_string(), mirror: Some(Mirror::LR), invert: false },
        AlgEntry { number: 3, name: None, moves: "R U X".to_string(), mirror: None, invert: false },
    ];
    let (cands, errs) = load_entries(&entries);
    assert_eq!(cands.len(), 2);
    assert_eq!(cands[0].label, "sune");
    assert_eq!(cands[0].variants.len(), 2);
    assert_eq!(cands[0].variants[1].get_full_name(), "sune (inverse)");
    assert_eq!(cands[1].label, "entry 2");
    assert_eq!(cands[1].cost_moves, 6);
    assert_eq!(errs.len(), 1);
    assert_eq!(describe(&errs[0]), (4, 3, "R U X\n    ^ parse error at position 5".to_string()));
}

#[test]
fn all_variants_flattens_in_order() {
    let (cands, errs) = load_csv("R U R' U',lr,yes\nF R U R' U' F',no,no\n");
    assert!(errs.is_empty());
    let algs = duplex::candidates::all_variants(&cands);
    assert_eq!(algs.len(), 5);
    assert_eq!(moves_to_string(&algs[0].moves), "R U R' U'");
    assert_eq!(moves_to_string(&algs[1].moves), "U R U' R'");
    assert_eq!(moves_to_string(&algs[4].moves), "F R U R' U' F'");
    assert!(algs[3].mirror && algs[3].invert);
}

#[test]
fn load_json_reads_entries() {
    let text = r#"[
        {"name": "sune", "moves": "R U R' U R U2 R'", "mirror": "LR", "invert": true},
        {"moves": "F R U R' U' F'", "mirror": null},
        {"name": 7, "moves": "R U R'", "invert": false}
    ]"#;
    let (cands, errs) = load_json(text).unwrap();
    assert!(errs.is_empty());
    assert_eq!(cands.len(), 3);
    assert_eq!(cands[0].label, "sune");
    assert_eq!(cands[0].variants.len(), 4);
    assert_eq!(cands[0].cost_moves, 7);
    assert_eq!(moves_to_string(&cands[0].variants[2].moves), "L' U' L U' L' U2 L");
    assert_eq!(cands[1].label, "entry 2");
    assert_eq!(cands[1].variants.len(), 1);
    assert_eq!(cands[2].label, "entry 3");
}

#[test]
fn load_json_reports_each_error() {
    let text = r#"[
        3,
        {"name": "a"},
        {"moves": 5},
        {"moves": "R", "mirror": "UD"},
        {"moves": "R", "invert": "yes"},
        {"moves": "R Q"}
    ]"#;
    let (cands, errs) = load_json(text).unwrap();
    assert!(cands.is_empty());
    let shown: Vec<(u8, usize, String)> = errs.iter().map(describe).collect();
    assert_eq!(
        shown,
        vec![
            (5, 1, "not an object".to_string()),
            (5, 2, "missing field `moves`".to_string()),
            (5, 3, "`moves` is not a string".to_string()),
            (5, 4, "`mirror` is not \"FB\", \"LR\" or null".to_string()),
            (5, 5, "`invert` is not true, false or null".to_string()),
            (4, 6, "R Q\n  ^ parse error at position 3".to_string()),
        ]
    );
}

#[test]
fn load_json_rejects_other_text() {
    assert!(load_json("not json").is_err());
    let err = load_json(r#"{"moves": "R"}"#).err().unwrap();
    assert!(err.starts_with("invalid type: map, expected a sequence"), "{}", err);
    let err = load_json("\"R U\"").err().unwrap();
    assert!(err.starts_with("invalid type: string \"R U\", expected a sequence"), "{}", err);
    let (cands, errs) = load_json("[]").unwrap();
    assert!(cands.is_empty() && errs.is_empty());
}

#[test]
fn json_file_names() {
    assert!(is_json_file_name("algs.json"));
    assert!(is_json_file_name("algs.JSON"));
    assert!(is_json_file_name("a.b.Json"));
    assert!(!is_json_file_name("algs.csv"));
    assert!(!is_json_file_name(".json"));
    assert!(!is_json_file_name("json"));
    assert!(!is_json_file_name("algs.json5"));
}

fn member(key: &str, value: JsonValue) -> (String, JsonValue) {
    (key.to_string(), value)
}

#[test]
fn decode_members_reads_parsed_values() {
    let members = vec![
        member("invert", JsonValue::Bool(true)),
        member("moves", JsonValue::Str("R U R'".to_string())),
        member("mirror", JsonValue::Str("FB".to_string())),
        member("name", JsonValue::Str("x".to_string())),
    ];
    let e = decode_members(4, &members).ok().unwrap();
    assert_eq!(e.number, 4);
    assert_eq!(e.name, Some("x".to_string()));
    assert_eq!(e.moves, "R U R'");
    assert_eq!(e.mirror, Some(Mirror::FB));
    assert!(e.invert);

    let members = vec![member("moves", JsonValue::Str("R".to_string())), member("mirror", JsonValue::Null)];
    let e = decode_members(1, &members).ok().unwrap();
    assert_eq!(e.name, None);
    assert_eq!(e.mirror, None);
    assert!(!e.invert);

    let members = vec![member("moves", JsonValue::Str("R".to_string())), member("moves", JsonValue::Null)];
    assert_eq!(decode_members(1, &members).ok().unwrap().moves, "R");
}

#[test]
fn decode_members_reports_what_is_wrong() {
    let cases: Vec<(Vec<(String, JsonValue)>, &str)> = vec![
        (vec![member("name", JsonValue::Str("a".to_string()))], "missing field `moves`"),
        (vec![member("moves", JsonValue::Number("5".to_string()))], "`moves` is not a string"),
        (
            vec![member("moves", JsonValue::Str("R".to_string())), member("mirror", JsonValue::Str("UD".to_string()))],
            "`mirror` is not \"FB\", \"LR\" or null",
        ),
        (
            vec![member("moves", JsonValue::Str("R".to_string())), member("invert", JsonValue::Array(vec![]))],
            "`invert` is not true, false or null",
        ),
    ];
    for (members, msg) in cases {
        let err = decode_members(9, &members).err().unwrap();
        assert_eq!(describe(&err), (5, 9, msg.to_string()));
    }
}
