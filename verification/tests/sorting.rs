use json_sort::fault::{Fault, Literal, SortError};
use json_sort::sort_json_string;

fn sorted(input: &str) -> String {
    sort_json_string(input).expect("the input is a document")
}

fn fault(input: &str) -> Fault {
    let error = sort_json_string(input).expect_err("the input is not a document");
    error.fault
}

#[test]
fn sorts_keys_of_a_flat_object() {
    assert_eq!(sorted("{\"b\":1,\"a\":2}"), "{\"a\":2,\"b\":1}");
}

#[test]
fn keeps_a_trailing_newline() {
    assert_eq!(sorted("{\"b\":1,\"a\":2}\n"), "{\"a\":2,\"b\":1}\n");
}

#[test]
fn leaves_a_sorted_document_unchanged() {
    let input = "{\n  \"a\": 2,\n  \"b\": 1\n}\n";
    assert_eq!(sorted(input), input);
}

#[test]
fn sorting_twice_changes_nothing_more() {
    let input = "{ \"z\": [ {\"y\": 1, \"x\": 2} ], /* c */ \"m\": {\"q\": true, \"p\": null}, \"a\": -1.5e+3 }";
    let once = sorted(input);
    assert_eq!(sorted(&once), once);
}

#[test]
fn trivia_stays_at_its_position() {
    let input = "{\n  \"b\": 1, // first\n  \"a\": 2 // second\n}";
    let expected = "{\n  \"a\": 2, // first\n  \"b\": 1 // second\n}";
    assert_eq!(sorted(input), expected);
}

#[test]
fn block_comments_and_spacing_stay() {
    let input = "/* head */ {\"b\" /* k */ : 1 , \"a\":2 } // tail";
    let expected = "/* head */ {\"a\":2 , \"b\" /* k */ : 1 } // tail";
    assert_eq!(sorted(input), expected);
}

#[test]
fn arrays_keep_their_order() {
    assert_eq!(sorted("[3, 1, 2]"), "[3, 1, 2]");
    assert_eq!(sorted("[{\"b\":1,\"a\":2}, 0]"), "[{\"a\":2,\"b\":1}, 0]");
}

#[test]
fn nested_objects_are_sorted() {
    assert_eq!(
        sorted("{\"z\":[{\"b\":1,\"a\":2}],\"a\":null}"),
        "{\"a\":null,\"z\":[{\"a\":2,\"b\":1}]}"
    );
}

#[test]
fn keys_with_escapes_sort_by_what_they_denote() {
    // "\u0062" denotes "b", which sorts after "a" although its text sorts before.
    assert_eq!(sorted("{\"\\u0062\":1,\"a\":2}"), "{\"a\":2,\"\\u0062\":1}");
}

#[test]
fn equal_keys_keep_their_order() {
    assert_eq!(sorted("{\"a\":1,\"a\":0}"), "{\"a\":1,\"a\":0}");
    assert_eq!(sorted("{\"b\":0,\"a\":1,\"b\":2}"), "{\"a\":1,\"b\":0,\"b\":2}");
}

#[test]
fn keys_sort_by_code_point() {
    assert_eq!(sorted("{\"é\":1,\"z\":2,\"Z\":3}"), "{\"Z\":3,\"z\":2,\"é\":1}");
    assert_eq!(sorted("{\"ab\":1,\"a\":2}"), "{\"a\":2,\"ab\":1}");
}

#[test]
fn primitives_stay_as_written() {
    let input = "{\"n\":1.50E-07,\"s\":\"caf\\u00e9\",\"t\":true,\"f\":false,\"z\":null}";
    let expected = "{\"f\":false,\"n\":1.50E-07,\"s\":\"caf\\u00e9\",\"t\":true,\"z\":null}";
    assert_eq!(sorted(input), expected);
}

#[test]
fn empty_containers_keep_their_inside() {
    assert_eq!(sorted("{ /* nothing */ }"), "{ /* nothing */ }");
    assert_eq!(sorted("[\n]"), "[\n]");
}

#[test]
fn top_level_primitives_are_documents() {
    assert_eq!(sorted(" 42 "), " 42 ");
    assert_eq!(sorted("\"x\""), "\"x\"");
}

#[test]
fn empty_text_is_refused() {
    assert_eq!(fault(""), Fault::UnexpectedEnd);
    assert_eq!(fault("  // only a comment"), Fault::UnexpectedEnd);
}

#[test]
fn content_after_the_root_is_refused() {
    assert_eq!(fault("{\"a\":1} x"), Fault::UnexpectedContent { at: 8 });
    assert_eq!(fault("01"), Fault::UnexpectedContent { at: 1 });
}

#[test]
fn a_trailing_comma_is_refused() {
    assert_eq!(
        fault("{\"a\":1,}"),
        Fault::ExpectedByte { expected: '"', found: b'}', at: 7 }
    );
}

#[test]
fn a_missing_colon_is_refused() {
    assert_eq!(
        fault("{\"a\" 1}"),
        Fault::ExpectedByte { expected: ':', found: b'1', at: 5 }
    );
    assert_eq!(fault("{\"a\""), Fault::ExpectedByteAtEnd { expected: ':' });
}

#[test]
fn missing_separators_are_refused() {
    assert_eq!(fault("{\"a\":1 \"b\":2}"), Fault::ExpectedCommaOrBrace { at: 7 });
    assert_eq!(fault("[1 2]"), Fault::ExpectedCommaOrBracket { at: 3 });
    assert_eq!(fault("[1"), Fault::ExpectedCommaOrBracket { at: 2 });
}

#[test]
fn offsets_count_bytes() {
    assert_eq!(fault("[\"é\" x]"), Fault::ExpectedCommaOrBracket { at: 6 });
    assert_eq!(fault("é"), Fault::UnexpectedByte { found: 0xC3, at: 0 });
    assert_eq!(fault("[\"日本\",?]"), Fault::UnexpectedByte { found: b'?', at: 10 });
}

#[test]
fn bad_literals_are_refused() {
    assert_eq!(fault("tru"), Fault::ExpectedLiteral { literal: Literal::True, at: 0 });
    assert_eq!(fault("[fals]"), Fault::ExpectedLiteral { literal: Literal::False, at: 1 });
    assert_eq!(fault("nul"), Fault::ExpectedLiteral { literal: Literal::Null, at: 0 });
}

#[test]
fn bad_numbers_are_refused() {
    assert_eq!(fault("-"), Fault::InvalidNumber { at: 0 });
    assert_eq!(fault("[-x]"), Fault::InvalidNumber { at: 1 });
    assert_eq!(fault("1."), Fault::InvalidFraction { at: 2 });
    assert_eq!(fault("1e+"), Fault::InvalidExponent { at: 3 });
}

#[test]
fn bad_strings_are_refused() {
    assert_eq!(fault("\"abc"), Fault::UnterminatedString);
    assert_eq!(fault("[\"\\"), Fault::UnterminatedEscape { at: 3 });
    assert_eq!(fault("[\"a\u{1}\"]"), Fault::InvalidStringLiteral { at: 1 });
}

#[test]
fn escapes_the_decoder_refuses_are_reported_with_its_message() {
    let error: SortError = sort_json_string("{\"\\x\":1}").expect_err("bad escape");
    assert_eq!(error.fault, Fault::InvalidEscapedString { at: 1 });
    assert!(error.cause.is_some());
    let value_error = sort_json_string("[\"\\q\"]").expect_err("bad escape in a value");
    assert_eq!(value_error.fault, Fault::InvalidEscapedString { at: 1 });
}

#[test]
fn other_faults_carry_no_message() {
    let error = sort_json_string("{").expect_err("unterminated object");
    assert_eq!(error.fault, Fault::ExpectedByteAtEnd { expected: '"' });
    assert_eq!(error.cause, None);
}

#[test]
fn unterminated_block_comments_are_refused() {
    assert_eq!(fault("/* x"), Fault::UnterminatedComment);
    assert_eq!(fault("{} /* x *"), Fault::UnterminatedComment);
}

#[test]
fn sorting_keeps_every_character() {
    let input = "{ \"é\": \"ü\", /* ß */ \"b\": [3, 1], \"a\": {\"d\": 0, \"c\": \"\\u00e9\"} }\r\n";
    let output = sorted(input);
    let mut before: Vec<char> = input.chars().collect();
    let mut after: Vec<char> = output.chars().collect();
    assert_eq!(after.len(), before.len());
    before.sort();
    after.sort();
    assert_eq!(after, before);
    assert_eq!(
        output,
        "{ \"a\": {\"c\": \"\\u00e9\", \"d\": 0}, /* ß */ \"b\": [3, 1], \"é\": \"ü\" }\r\n"
    );
}

#[test]
fn outer_trivia_stays_in_place() {
    let input = "// head\n  /* more */ {\"b\":1,\"a\":2}  \n// tail\n";
    let output = sorted(input);
    assert!(output.starts_with("// head\n  /* more */ "));
    assert!(output.ends_with("  \n// tail\n"));
    assert_eq!(output, "// head\n  /* more */ {\"a\":2,\"b\":1}  \n// tail\n");
}
