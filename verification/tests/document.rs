use roulette::couples::Couples;
use roulette::json::{parse_document, render_document};

fn couples_of(rows: Vec<Vec<&str>>) -> Couples {
    let mut c = Couples::new();
    for row in rows {
        let mut out: Vec<String> = Vec::new();
        for cell in row {
            out.push(cell.to_string());
        }
        c.couples.push(out);
    }
    c
}

#[test]
fn empty_set_renders_and_reads_back() {
    let c = couples_of(vec![]);
    let doc = render_document(&c);
    assert_eq!(doc, "{\n  \"couples\": []\n}");
    let back = parse_document(&doc).unwrap();
    assert_eq!(back.couples.len(), 0);
}

#[test]
fn two_rows_render_pretty() {
    let c = couples_of(vec![vec!["Ada", "t1"], vec!["Bruno", "t2"]]);
    let doc = render_document(&c);
    assert_eq!(
        doc,
        "{\n  \"couples\": [\n    [\"Ada\", \"t1\"],\n    [\"Bruno\", \"t2\"]\n  ]\n}"
    );
}

#[test]
fn round_trip_preserves_rows() {
    let c = couples_of(vec![vec!["Ada", "x1"], vec!["Bruno", "y2"], vec!["Chiara", "z3"]]);
    let doc = render_document(&c);
    let back = parse_document(&doc).unwrap();
    assert_eq!(back.couples, c.couples);
}

#[test]
fn round_trip_escapes_special_characters() {
    let c = couples_of(vec![
        vec!["A \"quoted\" name", "back\\slash"],
        vec!["line\nbreak and tab\t", "carriage\rreturn"],
        vec!["control\u{01}char", "bell\u{07}and\u{1f}unit"],
    ]);
    let doc = render_document(&c);
    let back = parse_document(&doc).unwrap();
    assert_eq!(back.couples, c.couples);
}

#[test]
fn round_trip_keeps_unicode_names() {
    let c = couples_of(vec![vec!["Zoë Müller", "token"], vec!["山田太郎", "令牌"]]);
    let doc = render_document(&c);
    let back = parse_document(&doc).unwrap();
    assert_eq!(back.couples, c.couples);
}

#[test]
fn rendered_document_is_real_json() {
    let c = couples_of(vec![
        vec!["A \"quoted\" name", "back\\slash"],
        vec!["line\nbreak", "control\u{01}char"],
        vec!["Zoë", "plain"],
    ]);
    let doc = render_document(&c);
    let v: serde_json::Value = serde_json::from_str(&doc).unwrap();
    let rows = v.as_object().unwrap().get("couples").unwrap().as_array().unwrap();
    assert_eq!(rows.len(), 3);
    for (i, row) in rows.iter().enumerate() {
        let cells = row.as_array().unwrap();
        assert_eq!(cells.len(), 2);
        assert_eq!(cells[0].as_str().unwrap(), c.couples[i][0]);
        assert_eq!(cells[1].as_str().unwrap(), c.couples[i][1]);
    }
}

#[test]
fn foreign_documents_are_rejected() {
    assert!(parse_document("").is_none());
    assert!(parse_document("{}").is_none());
    assert!(parse_document("{\n  \"couples\": []\n}trailing").is_none());
    assert!(parse_document("{\n  \"couples\": [\n    [\"only one cell\"]\n  ]\n}").is_none());
}

#[test]
fn row_shuffle_keeps_the_rows() {
    let mut c = couples_of(vec![vec!["Ada", "x"], vec!["Bruno", "y"], vec!["Chiara", "z"]]);
    let mut expected = c.couples.clone();
    c.rand();
    assert_eq!(c.couples.len(), 3);
    expected.sort();
    let mut got = c.couples.clone();
    got.sort();
    assert_eq!(got, expected);
}
