use saba_core::{Attribute, HtmlToken, HtmlTokenizer};

fn tokens(html: &str) -> Vec<HtmlToken> {
    let mut t = HtmlTokenizer::new(html.to_string());
    t.collect_tokens()
}

fn start(tag: &str, self_closing: bool, attributes: Vec<Attribute>) -> HtmlToken {
    HtmlToken::StartTag { tag: tag.to_string(), self_closing, attributes }
}

fn end(tag: &str) -> HtmlToken {
    HtmlToken::EndTag { tag: tag.to_string() }
}

fn attr(name: &str, value: &str) -> Attribute {
    Attribute::with_name_value(name.to_string(), value.to_string())
}

#[test]
fn anchor_with_unquoted_attribute() {
    assert_eq!(
        tokens("<a href=x>hi</a>"),
        vec![
            start("a", false, vec![attr("href", "x")]),
            HtmlToken::Char('h'),
            HtmlToken::Char('i'),
            end("a"),
            HtmlToken::Eof,
        ]
    );
}

#[test]
fn uppercase_tag_is_folded() {
    let mut t = HtmlTokenizer::new("<DIV>".to_string());
    assert_eq!(t.next(), Some(start("div", false, vec![])));
    assert_eq!(t.next(), Some(HtmlToken::Eof));
}

#[test]
fn empty_input_gives_only_eof() {
    assert_eq!(tokens(""), vec![HtmlToken::Eof]);
}

#[test]
fn nothing_after_eof() {
    let mut t = HtmlTokenizer::new("<p>x".to_string());
    assert_eq!(t.next(), Some(start("p", false, vec![])));
    assert_eq!(t.next(), Some(HtmlToken::Char('x')));
    assert_eq!(t.next(), Some(HtmlToken::Eof));
    assert_eq!(t.next(), None);
    assert_eq!(t.next(), None);
}

#[test]
fn eof_once_at_the_end_of_malformed_input() {
    for html in ["<", "</", "<a", "<a b", "<a b=", "<a b=\"c", "<a/", "</>", "<1>", "a<b c='d"] {
        let ts = tokens(html);
        assert_eq!(ts.last(), Some(&HtmlToken::Eof), "{}", html);
        assert_eq!(ts.iter().filter(|t| **t == HtmlToken::Eof).count(), 1, "{}", html);
    }
}

#[test]
fn names_are_lowercase_for_every_case() {
    let expected = vec![start("div", false, vec![attr("class", "Big")]), end("div"), HtmlToken::Eof];
    assert_eq!(tokens("<DIV CLASS=Big></DIV>"), expected);
    assert_eq!(tokens("<DiV ClAsS=Big></dIv>"), expected);
    assert_eq!(tokens("<div class=Big></div>"), expected);
}

#[test]
fn quoted_attribute_values() {
    assert_eq!(
        tokens("<img src=\"a b\" alt='c'>"),
        vec![start("img", false, vec![attr("src", "a b"), attr("alt", "c")]), HtmlToken::Eof]
    );
}

#[test]
fn self_closing_tag() {
    assert_eq!(tokens("<br/>"), vec![start("br", true, vec![]), HtmlToken::Eof]);
    assert_eq!(
        tokens("<img src='x'/>"),
        vec![start("img", true, vec![attr("src", "x")]), HtmlToken::Eof]
    );
}

#[test]
fn attribute_without_value() {
    assert_eq!(
        tokens("<input disabled>"),
        vec![start("input", false, vec![attr("disabled", "")]), HtmlToken::Eof]
    );
}

#[test]
fn less_than_not_followed_by_a_letter_is_dropped() {
    assert_eq!(
        tokens("a<1"),
        vec![HtmlToken::Char('a'), HtmlToken::Char('1'), HtmlToken::Eof]
    );
}

#[test]
fn end_tag_attributes_are_dropped() {
    assert_eq!(tokens("</p x=y>"), vec![end("p"), HtmlToken::Eof]);
}

#[test]
fn attribute_accessors() {
    let mut a = Attribute::new();
    a.add_char('i', true);
    a.add_char('d', true);
    a.add_char('7', false);
    assert_eq!(a.name(), "id".to_string());
    assert_eq!(a.value(), "7".to_string());
}

fn write(ts: &[HtmlToken]) -> String {
    let mut out = String::new();
    for t in ts {
        match t {
            HtmlToken::StartTag { tag, .. } => out.push_str(&format!("<{}>", tag)),
            HtmlToken::EndTag { tag } => out.push_str(&format!("</{}>", tag)),
            HtmlToken::Char(c) => out.push(*c),
            HtmlToken::Eof => {}
        }
    }
    out
}

#[test]
fn retokenizing_written_tokens_gives_them_back() {
    let first = tokens("<html><body><p>ab c</p><br></body></html>");
    let again = tokens(&write(&first));
    assert_eq!(first, again);
    assert_eq!(write(&again), "<html><body><p>ab c</p><br></body></html>");
}
