//! Tests of the term model: rendering terms in the dictionary's string form
//! and parsing that form back.

use hdt_pfc::DictError;
use hdt_pfc::term::{auto_term, term_string, HdtTerm};

#[test]
fn term_string_forms() {
    let iri = HdtTerm::Iri("http://example.org/x".to_owned());
    assert_eq!(term_string(&iri), "http://example.org/x");

    let blank = HdtTerm::BlankNode("b6".to_owned());
    assert_eq!(term_string(&blank), "_:b6");

    let lang = HdtTerm::LiteralLanguage("top class".to_owned(), "en".to_owned());
    assert_eq!(term_string(&lang), "\"top class\"@en");

    let typed = HdtTerm::LiteralDatatype(
        "2022-10-20".to_owned(),
        "http://www.w3.org/2001/XMLSchema#date".to_owned(),
    );
    assert_eq!(term_string(&typed), "\"2022-10-20\"^^<http://www.w3.org/2001/XMLSchema#date>");

    // a plain string literal keeps only its quotes
    let plain = HdtTerm::LiteralDatatype(
        "hello".to_owned(),
        "http://www.w3.org/2001/XMLSchema#string".to_owned(),
    );
    assert_eq!(term_string(&plain), "\"hello\"");
}

#[test]
fn auto_term_parses_each_kind() {
    match auto_term("http://example.org/x").unwrap() {
        HdtTerm::Iri(i) => assert_eq!(i, "http://example.org/x"),
        other => panic!("expected an IRI, got {:?}", other),
    }
    match auto_term("_:b6").unwrap() {
        HdtTerm::BlankNode(b) => assert_eq!(b, "b6"),
        other => panic!("expected a blank node, got {:?}", other),
    }
    match auto_term("\"top class\"@en").unwrap() {
        HdtTerm::LiteralLanguage(l, tag) => {
            assert_eq!(l, "top class");
            assert_eq!(tag, "en");
        },
        other => panic!("expected a language literal, got {:?}", other),
    }
    match auto_term("\"22.10\"^^<http://www.w3.org/2001/XMLSchema#decimal>").unwrap() {
        HdtTerm::LiteralDatatype(l, dt) => {
            assert_eq!(l, "22.10");
            assert_eq!(dt, "http://www.w3.org/2001/XMLSchema#decimal");
        },
        other => panic!("expected a typed literal, got {:?}", other),
    }
    match auto_term("\"plain\"").unwrap() {
        HdtTerm::LiteralDatatype(l, dt) => {
            assert_eq!(l, "plain");
            assert_eq!(dt, "http://www.w3.org/2001/XMLSchema#string");
        },
        other => panic!("expected a plain literal, got {:?}", other),
    }
}

#[test]
fn auto_term_rejects_malformed_text() {
    assert_eq!(auto_term("").unwrap_err(), DictError::InvalidEncoding);
    // a lone quote never closes its literal
    assert_eq!(auto_term("\"").unwrap_err(), DictError::InvalidEncoding);
    // a blank node needs its two prefix characters
    assert_eq!(auto_term("_").unwrap_err(), DictError::InvalidEncoding);
    // datatype text must look like ^^<...>
    assert_eq!(auto_term("\"x\"^^").unwrap_err(), DictError::InvalidEncoding);
    assert_eq!(auto_term("\"x\"yz").unwrap_err(), DictError::InvalidEncoding);
}

#[test]
fn term_round_trips_through_strings() {
    let samples = [
        "http://example.org/x",
        "_:b1",
        "\"top class\"@en",
        "\"ХОББИ\"@ru",
        "\"2022-10-20\"^^<http://www.w3.org/2001/XMLSchema#date>",
        "\"plain\"",
    ];
    for s in samples {
        let t = auto_term(s).unwrap();
        assert_eq!(term_string(&t), s, "round trip of {}", s);
    }
}

#[test]
fn language_tag_wins_over_datatype_text() {
    // an @ after the closing quote reads as a language tag even when ^^ follows
    match auto_term("\"x\"^^<http://ex.org/a@b>").unwrap() {
        HdtTerm::LiteralLanguage(l, tag) => {
            assert_eq!(l, "x");
            assert_eq!(tag, "b>");
        },
        other => panic!("expected a language literal, got {:?}", other),
    }
}
