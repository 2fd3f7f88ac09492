use count_charactors::document::Document;
use count_charactors::lexer::Lexer;
use count_charactors::lexer::Token;
use count_charactors::parse;
use count_charactors::parser::Parser;
use count_charactors::parser::ParserError;
use count_charactors::report_content;
use count_charactors::text::str_eq;
use count_charactors::text::str_lt;
use count_charactors::Value;

fn doc_of(input: &str) -> Document {
    let Value::Object(doc) = parse(input).expect("parse should succeed");
    doc
}

fn err_of(input: &str) -> String {
    match parse(input) {
        Ok(_) => panic!("parse should fail"),
        Err(e) => e.msg,
    }
}

#[test]
fn scenario_greeting_unicode_escape() {
    let doc = doc_of("[\"greeting\"]\"hi\\u0041there\"");
    assert_eq!(doc.len(), 1);
    assert_eq!(doc.get("greeting").unwrap().as_str(), "hiAthere");
    let (text, count) = report_content(doc.get("greeting").unwrap().as_str());
    assert_eq!(text.as_str(), "hiAthere");
    assert_eq!(count, 8);
}

#[test]
fn scenario_order_independent() {
    let d1 = doc_of("[\"a\"]\"x\"[\"b\"]\"y\"");
    let d2 = doc_of("[\"b\"]\"y\"[\"a\"]\"x\"");
    for d in [&d1, &d2] {
        assert_eq!(d.len(), 2);
        assert_eq!(d.title_at(0).as_str(), "a");
        assert_eq!(d.content_at(0).as_str(), "x");
        assert_eq!(d.title_at(1).as_str(), "b");
        assert_eq!(d.content_at(1).as_str(), "y");
    }
}

#[test]
fn scenario_unquoted_title_fails() {
    assert_eq!(err_of("[bad]\"x\""), "error: an unexpected char b");
}

#[test]
fn scenario_missing_close_bracket_fails() {
    assert_eq!(err_of("[\"t\"\"x\"]"), "error: ] is required next to [\"title\" String(\"x\")");
}

#[test]
fn content_is_concatenation_of_segments() {
    let doc = doc_of("[\"t\"]\"a\"\"b\"\"c\"");
    assert_eq!(doc.get("t").unwrap().as_str(), "abc");
}

#[test]
fn lexicographic_order_with_many_titles() {
    let doc = doc_of("[\"b\"]\"1\"[\"a\"]\"2\"[\"ab\"]\"3\"");
    assert_eq!(doc.len(), 3);
    assert_eq!(doc.title_at(0).as_str(), "a");
    assert_eq!(doc.title_at(1).as_str(), "ab");
    assert_eq!(doc.title_at(2).as_str(), "b");
}

#[test]
fn surrogate_pair_decodes_to_one_character() {
    let doc = doc_of("[\"s\"]\"\\uD83D\\uDE00\"");
    assert_eq!(doc.get("s").unwrap().as_str(), "\u{1F600}");
    let (text, count) = report_content(doc.get("s").unwrap().as_str());
    assert_eq!(text.as_str(), "\u{1F600}");
    assert_eq!(count, 1);
}

#[test]
fn bmp_unicode_escape_decodes() {
    let doc = doc_of("[\"t\"]\"\\u00e9\"");
    assert_eq!(doc.get("t").unwrap().as_str(), "\u{e9}");
}

#[test]
fn simple_escapes_stay_literal() {
    let doc = doc_of("[\"s\"]\"a\\nb\\t\"");
    assert_eq!(doc.get("s").unwrap().as_str(), "a\\nb\\t");
    assert_eq!(doc.get("s").unwrap().chars().count(), 6);
}

#[test]
fn all_simple_escapes_kept_verbatim() {
    let doc = doc_of("[\"s\"]\"\\\"\\\\\\/\\b\\f\\n\\r\\t\"");
    assert_eq!(doc.get("s").unwrap().as_str(), "\\\"\\\\\\/\\b\\f\\n\\r\\t");
}

#[test]
fn last_header_keeps_its_own_segments() {
    let doc = doc_of("[\"a\"]\"1\"\"2\"[\"b\"]\"3\"[\"a\"]\"9\"");
    assert_eq!(doc.len(), 2);
    assert_eq!(doc.get("a").unwrap().as_str(), "9");
    assert_eq!(doc.get("b").unwrap().as_str(), "3");
}

#[test]
fn duplicate_title_replaces_content() {
    let doc = doc_of("[\"t\"]\"x\"[\"t\"]\"y\"");
    assert_eq!(doc.len(), 1);
    assert_eq!(doc.get("t").unwrap().as_str(), "y");
}

#[test]
fn report_strips_literal_newlines_only() {
    let (text, count) = report_content("a\nb\nc");
    assert_eq!(text.as_str(), "abc");
    assert_eq!(count, 3);
    let (text2, count2) = report_content("a\\nb");
    assert_eq!(text2.as_str(), "a\\nb");
    assert_eq!(count2, 4);
}

#[test]
fn whitespace_between_tokens_is_dropped() {
    let doc = doc_of("  [\"a\"] \n \"x\" \"y\" ");
    assert_eq!(doc.len(), 1);
    assert_eq!(doc.get("a").unwrap().as_str(), "xy");
}

#[test]
fn newline_inside_literal_is_kept() {
    let doc = doc_of("[\"t\"]\"a\nb\"");
    assert_eq!(doc.get("t").unwrap().as_str(), "a\nb");
    let (text, count) = report_content(doc.get("t").unwrap().as_str());
    assert_eq!(text.as_str(), "ab");
    assert_eq!(count, 2);
}

#[test]
fn non_hex_in_unicode_window_is_dropped() {
    let doc = doc_of("[\"t\"]\"\\u0g41x\"");
    assert_eq!(doc.get("t").unwrap().as_str(), "Ax");
}

#[test]
fn empty_content_string() {
    let doc = doc_of("[\"t\"]\"\"");
    assert_eq!(doc.get("t").unwrap().as_str(), "");
    let (_, count) = report_content(doc.get("t").unwrap().as_str());
    assert_eq!(count, 0);
}

#[test]
fn unterminated_trailing_literal_is_dropped() {
    let doc = doc_of("[\"t\"]\"x\"\"abc");
    assert_eq!(doc.len(), 1);
    assert_eq!(doc.get("t").unwrap().as_str(), "x");
}

#[test]
fn escape_at_end_of_input_fails() {
    assert_eq!(err_of("[\"t\"]\"\\"), "error: a next char is expected");
}

#[test]
fn unicode_escape_without_digits_fails() {
    assert_eq!(
        err_of("[\"t\"]\"\\uzzzz\""),
        "error: a unicode character is expected cannot parse integer from empty string"
    );
}

#[test]
fn unknown_escape_fails() {
    assert_eq!(err_of("[\"t\"]\"\\x\""), "error: an unexpected escaped char x");
}

#[test]
fn lone_surrogate_fails() {
    assert_eq!(err_of("[\"t\"]\"\\uD800x\""), "error: invalid utf-16: lone surrogate found");
}

#[test]
fn empty_input_fails() {
    assert_eq!(err_of(""), "error: a token must start [ Tail");
}

#[test]
fn leading_string_fails() {
    assert_eq!(err_of("\"x\""), "error: a token must start [ String(\"x\")");
}

#[test]
fn header_without_content_fails() {
    assert_eq!(err_of("[\"t\"]"), "error: a token isn't peekable");
}

#[test]
fn bracket_instead_of_title_fails() {
    assert_eq!(err_of("[["), "error: String is required next to [ LeftBracket");
}

#[test]
fn bracket_in_content_fails() {
    assert_eq!(err_of("[\"t\"]]\"x\""), "error: String is required next to [\"title\"] RightBracket");
}

#[test]
fn section_without_content_fails() {
    assert_eq!(
        err_of("[\"a\"][\"b\"]\"x\""),
        "error: String is required next to [\"title\"] LeftBracket"
    );
}

#[test]
fn string_token_named_in_content_error() {
    assert_eq!(
        err_of("[\"t\"]\"x\"]\"y\""),
        "error: String is required next to [\"title\"] String(\"x\")"
    );
}

#[test]
fn offending_token_text_is_escaped() {
    assert_eq!(err_of("\"a\\nb\""), "error: a token must start [ String(\"a\\\\nb\")");
}

#[test]
fn tokenize_then_parse_directly() {
    let mut lx = Lexer::new("[\"k\"]\"v\"");
    let tokens = lx.tokenize().expect("tokenize should succeed");
    assert!(matches!(tokens.last(), Some(Token::Tail)));
    assert_eq!(tokens.len(), 5);
    let mut p = Parser::new(tokens);
    let Value::Object(doc) = p.parse().expect("parse should succeed");
    assert_eq!(doc.get("k").unwrap().as_str(), "v");
}

#[test]
fn parser_error_carries_its_message() {
    let e = ParserError::new("some message");
    assert_eq!(e.msg, "some message");
}

#[test]
fn string_order_helpers() {
    assert!(str_lt("a", "b"));
    assert!(str_lt("a", "ab"));
    assert!(!str_lt("b", "ab"));
    assert!(!str_lt("a", "a"));
    assert!(str_eq("h\u{e9}llo", "h\u{e9}llo"));
    assert!(!str_eq("a", "ab"));
}

#[test]
fn document_insert_replaces_and_sorts() {
    let mut doc = Document::new();
    doc.insert("b".to_owned(), "2".to_owned());
    doc.insert("a".to_owned(), "1".to_owned());
    doc.insert("b".to_owned(), "3".to_owned());
    assert_eq!(doc.len(), 2);
    assert_eq!(doc.title_at(0).as_str(), "a");
    assert_eq!(doc.content_at(0).as_str(), "1");
    assert_eq!(doc.title_at(1).as_str(), "b");
    assert_eq!(doc.content_at(1).as_str(), "3");
    assert!(doc.get("c").is_none());
}
