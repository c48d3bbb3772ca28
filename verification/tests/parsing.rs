//! Triple parsing: line splitting, field order, and line-ending handling.

use kb_tool::triple::{read_triples, Triple, TripleOrder};

#[test]
fn reads_hrt_triples() {
    let content = "A\tr1\tB\nB\tr2\tC";
    let triples = read_triples(content, TripleOrder::HRT);
    assert_eq!(
        triples,
        vec![Triple::new("A", "r1", "B"), Triple::new("B", "r2", "C")]
    );
}

#[test]
fn reads_htr_triples() {
    let content = "A\tB\tr1\n";
    let triples = read_triples(content, TripleOrder::HTR);
    assert_eq!(triples, vec![Triple::new("A", "r1", "B")]);
}

#[test]
fn trailing_newline_and_crlf_are_line_endings() {
    let content = "A\tr1\tB\r\nB\tr2\tC\n";
    let triples = read_triples(content, TripleOrder::HRT);
    assert_eq!(
        triples,
        vec![Triple::new("A", "r1", "B"), Triple::new("B", "r2", "C")]
    );
}

#[test]
fn empty_content_gives_no_triples() {
    let triples = read_triples("", TripleOrder::HRT);
    assert_eq!(triples, vec![]);
}

#[test]
fn extra_fields_are_ignored() {
    let content = "A\tr1\tB\textra";
    let triples = read_triples(content, TripleOrder::HRT);
    assert_eq!(triples, vec![Triple::new("A", "r1", "B")]);
}

#[test]
fn triple_new_stores_fields() {
    let t = Triple::new("h", "r", "t");
    assert_eq!(t.head, "h");
    assert_eq!(t.relation, "r");
    assert_eq!(t.tail, "t");
}
