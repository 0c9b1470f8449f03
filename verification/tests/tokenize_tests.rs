use html_parser::parse::{tokenize, Comment, DocumentTokens, Tag, Text, Token};

#[test]
fn opening_tag() {
    let input = "<html>";
    let result = tokenize(input);
    assert_eq!(
        result,
        DocumentTokens {
            source: input,
            tokens: vec![Token::OpeningTag(Tag { _raw: "<html>", start_pos: 0, end_pos: 5 })],
        }
    );
}

#[test]
fn closing_tag() {
    let input = "</html>";
    let result = tokenize(input);
    assert_eq!(
        result,
        DocumentTokens {
            source: input,
            tokens: vec![Token::ClosingTag(Tag { _raw: "</html>", start_pos: 0, end_pos: 6 })],
        }
    );
}

#[test]
fn comment() {
    let input = "<!-- comment -->";
    let result = tokenize(input);
    assert_eq!(
        result,
        DocumentTokens {
            source: input,
            tokens: vec![Token::Comment(Comment {
                _raw: "<!-- comment -->",
                start_pos: 0,
                end_pos: 15,
            })],
        }
    );
}

#[test]
fn text_between_tags() {
    let input = "<p>text</p>";
    let result = tokenize(input);
    assert_eq!(
        result,
        DocumentTokens {
            source: input,
            tokens: vec![
                Token::OpeningTag(Tag { _raw: "<p>", start_pos: 0, end_pos: 2 }),
                Token::Text(Text { _raw: "text", start_pos: 3, end_pos: 6 }),
                Token::ClosingTag(Tag { _raw: "</p>", start_pos: 7, end_pos: 10 }),
            ],
        }
    );
}

#[test]
fn two_opening_tags_no_text() {
    let input = "<a><b>";
    let result = tokenize(input);
    assert_eq!(
        result,
        DocumentTokens {
            source: input,
            tokens: vec![
                Token::OpeningTag(Tag { _raw: "<a>", start_pos: 0, end_pos: 2 }),
                Token::OpeningTag(Tag { _raw: "<b>", start_pos: 3, end_pos: 5 }),
            ],
        }
    );
}

#[test]
fn empty_input() {
    let result = tokenize("");
    assert_eq!(result, DocumentTokens { source: "", tokens: vec![] });
}

#[test]
fn text_only_input_yields_nothing() {
    let input = "no brackets here";
    let result = tokenize(input);
    assert_eq!(result, DocumentTokens { source: input, tokens: vec![] });
}

#[test]
fn unterminated_tag_yields_nothing() {
    let input = "<a";
    let result = tokenize(input);
    assert_eq!(result, DocumentTokens { source: input, tokens: vec![] });
}

#[test]
fn malformed_comment_dropped() {
    let input = "<!- bad ->";
    let result = tokenize(input);
    assert_eq!(result, DocumentTokens { source: input, tokens: vec![] });
}

#[test]
fn comment_with_overlapping_delimiters() {
    let input = "<!-->";
    let result = tokenize(input);
    assert_eq!(
        result,
        DocumentTokens {
            source: input,
            tokens: vec![Token::Comment(Comment { _raw: "<!-->", start_pos: 0, end_pos: 4 })],
        }
    );
}

#[test]
fn bang_span_too_short_for_comment() {
    let input = "x<!>";
    let result = tokenize(input);
    assert_eq!(result, DocumentTokens { source: input, tokens: vec![] });
}

#[test]
fn gt_in_attribute_truncates_tag() {
    let input = "<a href=\">\">";
    let result = tokenize(input);
    assert_eq!(
        result,
        DocumentTokens {
            source: input,
            tokens: vec![Token::OpeningTag(Tag { _raw: "<a href=\">", start_pos: 0, end_pos: 9 })],
        }
    );
}

#[test]
fn adjacent_close_open_yields_no_text() {
    let input = "a><b";
    let result = tokenize(input);
    assert_eq!(result, DocumentTokens { source: input, tokens: vec![] });
}

#[test]
fn text_outside_tags() {
    let input = "a>b<c";
    let result = tokenize(input);
    assert_eq!(
        result,
        DocumentTokens {
            source: input,
            tokens: vec![Token::Text(Text { _raw: "b", start_pos: 2, end_pos: 2 })],
        }
    );
}

#[test]
fn mixed_document() {
    let input = "<div>hi<!-- note --></div>";
    let result = tokenize(input);
    assert_eq!(
        result,
        DocumentTokens {
            source: input,
            tokens: vec![
                Token::OpeningTag(Tag { _raw: "<div>", start_pos: 0, end_pos: 4 }),
                Token::Text(Text { _raw: "hi", start_pos: 5, end_pos: 6 }),
                Token::Comment(Comment { _raw: "<!-- note -->", start_pos: 7, end_pos: 19 }),
                Token::ClosingTag(Tag { _raw: "</div>", start_pos: 20, end_pos: 25 }),
            ],
        }
    );
}
