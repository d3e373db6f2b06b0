use saba_core::{CssParser, CssToken, CssTokenizer, Declaration, QualifiedRule, Selector, Stylesheet};

fn parse(css: &str) -> Stylesheet {
    let t = CssTokenizer::new(css.to_string());
    let mut p = CssParser::new(t);
    p.parse_stylesheet()
}

fn decl(property: &str, value: CssToken) -> Declaration {
    let mut d = Declaration::new();
    d.set_property(property.to_string());
    d.set_value(value);
    d
}

fn rule(selector: Selector, declarations: Vec<Declaration>) -> QualifiedRule {
    let mut r = QualifiedRule::new();
    r.set_selector(selector);
    r.set_declarations(declarations);
    r
}

fn ident(s: &str) -> CssToken {
    CssToken::Ident(s.to_string())
}

#[test]
fn type_selector_rule() {
    let sheet = parse("div { color: red }");
    assert_eq!(
        sheet.rules,
        vec![rule(Selector::TypeSelector("div".to_string()), vec![decl("color", ident("red"))])]
    );
}

#[test]
fn class_and_id_selectors() {
    assert_eq!(parse(".cls { x: y }").rules[0].selector, Selector::ClassSelector("cls".to_string()));
    assert_eq!(parse("#id { x: y }").rules[0].selector, Selector::IdSelector("id".to_string()));
}

#[test]
fn empty_stylesheet() {
    assert_eq!(parse("").rules, vec![]);
    assert_eq!(parse("  \n ").rules, vec![]);
}

#[test]
fn stops_at_the_first_malformed_rule() {
    let sheet = parse("a { x: y } . { b: c } p { q: r }");
    assert_eq!(sheet.rules, vec![rule(Selector::TypeSelector("a".to_string()), vec![decl("x", ident("y"))])]);
    let sheet = parse("a { x: y } b");
    assert_eq!(sheet.rules.len(), 1);
    let sheet = parse("{ x: y } a { b: c }");
    assert_eq!(sheet.rules, vec![]);
}

#[test]
fn at_rules_are_passed_over() {
    let sheet = parse("@media screen { a { x: y } } p { q: r } @import url; h1 { s: t }");
    assert_eq!(
        sheet.rules,
        vec![
            rule(Selector::TypeSelector("p".to_string()), vec![decl("q", ident("r"))]),
            rule(Selector::TypeSelector("h1".to_string()), vec![decl("s", ident("t"))]),
        ]
    );
}

#[test]
fn several_declarations_keep_their_order() {
    let sheet = parse("p { color: blue; width: 10; font: \"x\"; margin: #fff }");
    assert_eq!(
        sheet.rules[0].declarations,
        vec![
            decl("color", ident("blue")),
            decl("width", CssToken::Number("10".to_string())),
            decl("font", CssToken::StringToken("x".to_string())),
            decl("margin", CssToken::HashToken("fff".to_string())),
        ]
    );
}

#[test]
fn declaration_without_colon_is_skipped() {
    let sheet = parse("p { color red; width: 1 }");
    assert_eq!(sheet.rules[0].declarations, vec![decl("width", CssToken::Number("1".to_string()))]);
}

#[test]
fn other_selector_token_is_unknown() {
    let sheet = parse("* { a: b }");
    assert_eq!(sheet.rules[0].selector, Selector::UnknownSelector);
}

#[test]
fn rule_order_is_source_order() {
    let sheet = parse("a { x: y } b { x: y } c { x: y }");
    let names: Vec<Selector> = sheet.rules.iter().map(|r| r.selector.clone()).collect();
    assert_eq!(
        names,
        vec![
            Selector::TypeSelector("a".to_string()),
            Selector::TypeSelector("b".to_string()),
            Selector::TypeSelector("c".to_string()),
        ]
    );
}

#[test]
fn tokenizer_reads_each_kind() {
    let mut t = CssTokenizer::new("@page #x .y z-1 12.5 'q' ( ) : ; { } ,".to_string());
    let mut got = Vec::new();
    while let Some(tok) = t.next() {
        got.push(tok);
    }
    assert_eq!(
        got,
        vec![
            CssToken::AtKeyword("page".to_string()),
            CssToken::HashToken("x".to_string()),
            CssToken::Delim('.'),
            ident("y"),
            ident("z-1"),
            CssToken::Number("12.5".to_string()),
            CssToken::StringToken("q".to_string()),
            CssToken::OpenParenthesis,
            CssToken::CloseParenthesis,
            CssToken::Colon,
            CssToken::SemiColon,
            CssToken::OpenCurly,
            CssToken::CloseCurly,
            CssToken::Delim(','),
        ]
    );
}

#[test]
fn constructors_start_empty() {
    assert_eq!(Stylesheet::new().rules, vec![]);
    let r = QualifiedRule::new();
    assert_eq!(r.selector, Selector::TypeSelector(String::new()));
    assert!(r.declarations.is_empty());
    let d = Declaration::new();
    assert_eq!(d.property, String::new());
    assert_eq!(d.value, CssToken::Ident(String::new()));
    let mut s = Stylesheet::new();
    s.set_rules(vec![QualifiedRule::new()]);
    assert_eq!(s.rules.len(), 1);
}

fn write_token(t: &CssToken) -> String {
    match t {
        CssToken::Ident(s) => s.clone(),
        CssToken::Number(s) => s.clone(),
        CssToken::HashToken(s) => format!("#{}", s),
        CssToken::StringToken(s) => format!("\"{}\"", s),
        other => panic!("not written here: {:?}", other),
    }
}

fn write_sheet(sheet: &Stylesheet) -> String {
    let mut out = String::new();
    for r in &sheet.rules {
        match &r.selector {
            Selector::TypeSelector(n) => out.push_str(n),
            Selector::ClassSelector(n) => out.push_str(&format!(".{}", n)),
            Selector::IdSelector(n) => out.push_str(&format!("#{}", n)),
            Selector::UnknownSelector => panic!("unknown selector"),
        }
        out.push_str(" {");
        for d in &r.declarations {
            out.push_str(&format!(" {}: {};", d.property, write_token(&d.value)));
        }
        out.push_str(" }\n");
    }
    out
}

#[test]
fn reparsing_written_rules_gives_them_back() {
    let first = parse("div{color:red} .a { x: 1; y: \"s\" } #b { z: #fff }");
    assert_eq!(first.rules.len(), 3);
    let again = parse(&write_sheet(&first));
    assert_eq!(first, again);
}

#[test]
fn malformed_rule_keeps_exactly_the_rules_before_it() {
    let whole = parse("@media x { a { b: c } } a { x: y } . { } p { q: r }");
    let prefix = parse("@media x { a { b: c } } a { x: y }");
    assert_eq!(whole, prefix);
    assert_eq!(whole.rules.len(), 1);
}

#[test]
fn parser_does_not_go_back_after_parsing() {
    let mut p = CssParser::new(CssTokenizer::new("a { x: y } b { z: w }".to_string()));
    assert_eq!(p.parse_stylesheet().rules.len(), 2);
    assert_eq!(p.parse_stylesheet().rules, vec![]);
    let mut p = CssParser::new(CssTokenizer::new("a { x: y } { } b { z: w }".to_string()));
    assert_eq!(p.parse_stylesheet().rules.len(), 1);
    assert_eq!(p.parse_stylesheet().rules, vec![]);
}
