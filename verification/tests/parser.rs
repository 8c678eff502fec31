use json_sort::fault::{Fault, Literal};
use json_sort::parser::Parser;
use json_sort::tree::{ArrayBody, JsonNode, ObjectBody};

fn text(chars: &[char]) -> String {
    chars.iter().collect()
}

#[test]
fn a_document_keeps_its_outer_trivia() {
    let mut p = Parser::new(" {} // x\n");
    let d = p.parse_document().ok().expect("a document");
    assert_eq!(text(&d.leading), " ");
    assert_eq!(text(&d.trailing), " // x\n");
    assert_eq!(d.source_len, 9);
    assert_eq!(p.pos, 9);
    assert_eq!(d.render(), " {} // x\n");
}

#[test]
fn an_object_without_members_is_empty() {
    let mut p = Parser::new("{ /* c */ }x");
    let o = p.parse_object().ok().expect("an object");
    assert_eq!(p.pos, 11);
    match o.body {
        ObjectBody::Empty(t) => assert_eq!(text(&t), " /* c */ "),
        ObjectBody::Entries(_) => panic!("members where there are none"),
    }
}

#[test]
fn object_members_come_sorted_with_their_values() {
    let mut p = Parser::new("{\"b\" : 1, \"a\":[2]}");
    let o = p.parse_object().ok().expect("an object");
    match o.body {
        ObjectBody::Entries(es) => {
            assert_eq!(es.len(), 2);
            assert_eq!(text(&es[0].key.decoded), "a");
            assert_eq!(text(&es[0].between), ":");
            assert!(matches!(es[0].value, JsonNode::Array(_)));
            assert_eq!(text(&es[1].key.decoded), "b");
            assert_eq!(text(&es[1].between), " : ");
            assert_eq!(text(&es[0].leading), "");
            assert_eq!(text(&es[1].leading), " ");
        }
        ObjectBody::Empty(_) => panic!("no members"),
    }
}

#[test]
fn a_missing_brace_is_reported() {
    let mut p = Parser::new("[1]");
    let e = p.parse_object().err().expect("not an object");
    assert_eq!(e.fault, Fault::ExpectedByte { expected: '{', found: b'[', at: 0 });
    assert_eq!(p.pos, 0);
}

#[test]
fn array_items_keep_their_order() {
    let mut p = Parser::new("[ 3 ,1]");
    let a = p.parse_array().ok().expect("an array");
    match a.body {
        ArrayBody::Items(is) => {
            assert_eq!(is.len(), 2);
            assert_eq!(text(&is[0].leading), " ");
            assert_eq!(text(&is[0].after), " ");
            assert!(matches!(&is[1].value, JsonNode::Primitive(t) if text(t) == "1"));
        }
        ArrayBody::Empty(_) => panic!("no items"),
    }
    let mut q = Parser::new("[ ]");
    let b = q.parse_array().ok().expect("an array");
    assert!(matches!(b.body, ArrayBody::Empty(ref t) if text(t) == " "));
}

#[test]
fn only_literals_with_escapes_are_decoded() {
    let mut p = Parser::new("\"ab\"");
    let plain = p.lex_string().ok().expect("a string");
    assert!(plain.decoded.is_none());
    let mut q = Parser::new("\"a\\u0062\"");
    let escaped = q.lex_string().ok().expect("a string");
    assert_eq!(text(&escaped.decoded.expect("decoded")), "ab");
}

#[test]
fn failed_reads_leave_the_cursor() {
    let mut p = Parser::new("x");
    assert!(p.expect_byte(':').is_err());
    assert_eq!(p.pos, 0);
    let mut q = Parser::new("nul");
    let e = q.parse_literal(Literal::Null).err().expect("not null");
    assert_eq!(e.fault, Fault::ExpectedLiteral { literal: Literal::Null, at: 0 });
    assert_eq!(q.pos, 0);
}

#[test]
fn a_document_may_start_after_the_cursor() {
    let mut q = Parser::new("xx [2, 1] ");
    q.pos = 2;
    let d = q.parse_document().ok().expect("a document from the cursor");
    assert_eq!(text(&d.leading), " ");
    assert_eq!(text(&d.trailing), " ");
    assert_eq!(q.pos, 10);
    assert_eq!(d.render(), " [2, 1] ");
}
