use vstd::prelude::*;
use crate::css_token::{
    CssToken, CssTokenModel, CssTokenizer, copy_token, lex_all, lemma_lex_advances,
};
use crate::cssom_model::{
    SelectorModel, DeclarationModel, RuleModel, selector_at, find_open, declarations_at,
    qualified_rule_at, block_end, at_rule_end, rules_at, rules_end, give_up_at, lemma_ends,
    lemma_rule_ends,
};

verus! {

/// The value of a declaration: one token.
pub type ComponentValue = CssToken;

pub open spec fn css_tokens_model(ts: Seq<CssToken>) -> Seq<CssTokenModel> {
    ts.map_values(|t: CssToken| t@)
}

/// The rules that a style sheet's text gives.
pub open spec fn parse_css(input: Seq<char>) -> Seq<RuleModel> {
    rules_at(lex_all(input, 0), 0)
}

/// A simple selector.
#[derive(Debug, Clone, PartialEq, Eq)]
pub enum Selector {
    TypeSelector(String),
    ClassSelector(String),
    IdSelector(String),
    UnknownSelector,
}

impl View for Selector {
    type V = SelectorModel;

    open spec fn view(&self) -> SelectorModel {
        match self {
            Selector::TypeSelector(s) => SelectorModel::Type(s@),
            Selector::ClassSelector(s) => SelectorModel::Class(s@),
            Selector::IdSelector(s) => SelectorModel::Id(s@),
            Selector::UnknownSelector => SelectorModel::Unknown,
        }
    }
}

/// A property and its value.
#[derive(Debug, Clone, PartialEq, Eq)]
pub struct Declaration {
    pub property: String,
    pub value: ComponentValue,
}

impl View for Declaration {
    type V = DeclarationModel;

    open spec fn view(&self) -> DeclarationModel {
        DeclarationModel { property: self.property@, value: self.value@ }
    }
}

pub open spec fn declarations_model(ds: Seq<Declaration>) -> Seq<DeclarationModel> {
    ds.map_values(|d: Declaration| d@)
}

/// A selector with its block of declarations.
#[derive(Debug, Clone, PartialEq, Eq)]
pub struct QualifiedRule {
    pub selector: Selector,
    pub declarations: Vec<Declaration>,
}

impl View for QualifiedRule {
    type V = RuleModel;

    open spec fn view(&self) -> RuleModel {
        RuleModel {
            selector: self.selector@,
            declarations: declarations_model(self.declarations@),
        }
    }
}

pub open spec fn rules_model(rs: Seq<QualifiedRule>) -> Seq<RuleModel> {
    rs.map_values(|r: QualifiedRule| r@)
}

/// The rules of a style sheet, in source order.
#[derive(Debug, Clone, PartialEq, Eq)]
pub struct Stylesheet {
    pub rules: Vec<QualifiedRule>,
}

impl View for Stylesheet {
    type V = Seq<RuleModel>;

    open spec fn view(&self) -> Seq<RuleModel> {
        rules_model(self.rules@)
    }
}

impl Stylesheet {
    pub fn new() -> (r: Self)
        ensures
            r@ == Seq::<RuleModel>::empty(),
    {
        let r = Stylesheet { rules: Vec::new() };
        proof {
            assert(r@ =~= Seq::<RuleModel>::empty());
        }
        r
    }

    pub fn set_rules(&mut self, rules: Vec<QualifiedRule>)
        ensures
            final(self)@ == rules_model(rules@),
    {
        self.rules = rules;
    }
}

impl QualifiedRule {
    /// A rule with the selector `TypeSelector("")` and no declarations.
    pub fn new() -> (r: Self)
        ensures
            r@.selector == SelectorModel::Type(Seq::empty()),
            r@.declarations == Seq::<DeclarationModel>::empty(),
    {
        let r = QualifiedRule { selector: Selector::TypeSelector(String::new()), declarations: Vec::new() };
        proof {
            assert(r@.declarations =~= Seq::<DeclarationModel>::empty());
        }
        r
    }

    pub fn set_selector(&mut self, selector: Selector)
        ensures
            final(self)@ == (RuleModel { selector: selector@, ..old(self)@ }),
    {
        self.selector = selector;
    }

    pub fn set_declarations(&mut self, declarations: Vec<Declaration>)
        ensures
            final(self)@ == (RuleModel {
                declarations: declarations_model(declarations@),
                ..old(self)@
            }),
    {
        self.declarations = declarations;
    }
}

impl Declaration {
    /// A declaration with an empty property and the value `Ident("")`.
    pub fn new() -> (r: Self)
        ensures
            r@.property == Seq::<char>::empty(),
            r@.value == CssTokenModel::Ident(Seq::empty()),
    {
        Declaration { property: String::new(), value: ComponentValue::Ident(String::new()) }
    }

    pub fn set_property(&mut self, property: String)
        ensures
            final(self)@ == (DeclarationModel { property: property@, ..old(self)@ }),
    {
        self.property = property;
    }

    pub fn set_value(&mut self, value: ComponentValue)
        ensures
            final(self)@ == (DeclarationModel { value: value@, ..old(self)@ }),
    {
        self.value = value;
    }
}

fn is_open_curly(t: &CssToken) -> (r: bool)
    ensures
        r == (t@ is OpenCurly),
{
    match t {
        CssToken::OpenCurly => true,
        _ => false,
    }
}

fn is_close_curly(t: &CssToken) -> (r: bool)
    ensures
        r == (t@ is CloseCurly),
{
    match t {
        CssToken::CloseCurly => true,
        _ => false,
    }
}

fn is_colon(t: &CssToken) -> (r: bool)
    ensures
        r == (t@ is Colon),
{
    match t {
        CssToken::Colon => true,
        _ => false,
    }
}

fn is_semicolon(t: &CssToken) -> (r: bool)
    ensures
        r == (t@ is SemiColon),
{
    match t {
        CssToken::SemiColon => true,
        _ => false,
    }
}

fn is_at_keyword(t: &CssToken) -> (r: bool)
    ensures
        r == (t@ is AtKeyword),
{
    match t {
        CssToken::AtKeyword(_) => true,
        _ => false,
    }
}

/// Builds the rules of a style sheet from its tokens.
#[derive(Debug, Clone)]
pub struct CssParser {
    tokens: Vec<CssToken>,
    pos: usize,
}

impl CssParser {
    /// The tokens the parser reads.
    pub closed spec fn spec_tokens(&self) -> Seq<CssTokenModel> {
        css_tokens_model(self.tokens@)
    }

    /// How many tokens have been read.
    pub closed spec fn spec_pos(&self) -> int {
        self.pos as int
    }

    pub open spec fn wf(&self) -> bool {
        0 <= self.spec_pos() <= self.spec_tokens().len()
    }

    /// A parser over the tokens that `t` has left.
    pub fn new(t: CssTokenizer) -> (r: Self)
        requires
            t.wf(),
        ensures
            r.wf(),
            r.spec_tokens() == t.remaining(),
            r.spec_pos() == 0,
    {
        let ghost t0 = t;
        let mut tz = t.duplicate();
        let mut tokens: Vec<CssToken> = Vec::new();
        loop
            invariant
                tz.wf(),
                t0 == t,
                tz.spec_input() == t0.spec_input(),
                css_tokens_model(tokens@) + tz.remaining() == t0.remaining(),
            decreases tz.spec_input().len() - tz.spec_pos(),
        {
            proof {
                lemma_lex_advances(tz.spec_input(), tz.spec_pos());
            }
            let ghost before = tz;
            let ghost seen = tokens@;
            match tz.next() {
                None => {
                    proof {
                        assert(before.remaining() =~= Seq::<CssTokenModel>::empty());
                        assert(css_tokens_model(tokens@) =~= t0.remaining());
                    }
                    let r = CssParser { tokens, pos: 0 };
                    proof {
                        assert(r.spec_tokens() == t0.remaining());
                    }
                    return r;
                },
                Some(tok) => {
                    tokens.push(tok);
                    proof {
                        assert(css_tokens_model(tokens@) =~= css_tokens_model(seen).push(tok@));
                        assert(before.remaining() =~= seq![tok@] + tz.remaining());
                        assert(css_tokens_model(tokens@) + tz.remaining() =~= css_tokens_model(seen)
                            + before.remaining());
                    }
                },
            }
        }
    }

    /// The rules of the whole style sheet: at-rules are passed over, and the first
    /// malformed qualified rule ends it.
    pub fn parse_stylesheet(&mut self) -> (r: Stylesheet)
        requires
            old(self).wf(),
        ensures
            final(self).wf(),
            final(self).spec_tokens() == old(self).spec_tokens(),
            r@ == rules_at(old(self).spec_tokens(), old(self).spec_pos()),
            final(self).spec_pos() == rules_end(old(self).spec_tokens(), old(self).spec_pos()),
    {
        let mut sheet = Stylesheet::new();
        sheet.set_rules(self.consume_list_of_rules());
        sheet
    }

    fn consume_list_of_rules(&mut self) -> (r: Vec<QualifiedRule>)
        requires
            old(self).wf(),
        ensures
            final(self).wf(),
            final(self).tokens@ == old(self).tokens@,
            rules_model(r@) == rules_at(old(self).spec_tokens(), old(self).spec_pos()),
            final(self).spec_pos() == rules_end(old(self).spec_tokens(), old(self).spec_pos()),
    {
        let mut rules: Vec<QualifiedRule> = Vec::new();
        let ghost ts = self.spec_tokens();
        loop
            invariant
                self.wf(),
                self.tokens@ == old(self).tokens@,
                ts == self.spec_tokens(),
                rules_model(rules@) + rules_at(ts, self.spec_pos()) == rules_at(
                    ts,
                    old(self).spec_pos(),
                ),
                rules_end(ts, self.spec_pos()) == rules_end(ts, old(self).spec_pos()),
            decreases ts.len() - self.spec_pos(),
        {
            let ghost seen = rules@;
            let ghost i = self.spec_pos();
            if self.pos >= self.tokens.len() {
                proof {
                    assert(rules_model(rules@) =~= rules_model(rules@) + rules_at(ts, i));
                }
                return rules;
            }
            proof {
                lemma_rule_ends(ts, i);
            }
            if is_at_keyword(&self.tokens[self.pos]) {
                self.consume_at_rule();
            } else {
                match self.consume_qualified_rule() {
                    Some(rule) => {
                        rules.push(rule);
                        proof {
                            assert(rules_model(rules@) =~= rules_model(seen).push(rules@.last()@));
                            assert(rules_model(rules@) + rules_at(ts, self.spec_pos())
                                =~= rules_model(seen) + rules_at(ts, i));
                        }
                    },
                    None => {
                        proof {
                            assert(rules_model(rules@) =~= rules_model(rules@) + rules_at(ts, i));
                        }
                        return rules;
                    },
                }
            }
        }
    }

    /// Passes over an at-rule: its keyword, then up to its `;` or through its block.
    fn consume_at_rule(&mut self)
        requires
            old(self).wf(),
            old(self).spec_pos() < old(self).spec_tokens().len(),
        ensures
            final(self).tokens@ == old(self).tokens@,
            final(self).spec_pos() == at_rule_end(old(self).spec_tokens(), old(self).spec_pos() + 1),
    {
        let ghost ts = self.spec_tokens();
        let len = self.tokens.len();
        let mut j = self.pos + 1;
        while j < len && !is_semicolon(&self.tokens[j]) && !is_open_curly(&self.tokens[j])
            invariant
                ts == css_tokens_model(self.tokens@),
                self.tokens@ == old(self).tokens@,
                len == ts.len(),
                1 <= j <= len,
                at_rule_end(ts, j as int) == at_rule_end(ts, old(self).spec_pos() + 1),
            decreases len - j,
        {
            j = j + 1;
        }
        if j >= len {
            self.pos = len;
            return;
        }
        if is_semicolon(&self.tokens[j]) {
            self.pos = j + 1;
            return;
        }
        let mut depth: usize = 1;
        let mut k = j + 1;
        while k < len
            invariant
                ts == css_tokens_model(self.tokens@),
                self.tokens@ == old(self).tokens@,
                len == ts.len(),
                1 <= depth <= k <= len,
                block_end(ts, k as int, depth as nat) == at_rule_end(ts, old(self).spec_pos() + 1),
            decreases len - k,
        {
            if is_close_curly(&self.tokens[k]) {
                if depth <= 1 {
                    self.pos = k + 1;
                    return;
                }
                depth = depth - 1;
            } else if is_open_curly(&self.tokens[k]) {
                depth = depth + 1;
            }
            k = k + 1;
        }
        self.pos = len;
    }

    fn consume_selector(&mut self) -> (r: Option<Selector>)
        requires
            old(self).wf(),
        ensures
            final(self).wf(),
            final(self).tokens@ == old(self).tokens@,
            r is None ==> final(self).spec_pos() == old(self).spec_pos(),
            match selector_at(old(self).spec_tokens(), old(self).spec_pos()) {
                None => r is None,
                Some((s, j)) => r is Some && r->0@ == s && final(self).spec_pos() == j,
            },
    {
        let len = self.tokens.len();
        if self.pos >= len {
            return None;
        }
        let i = self.pos;
        match &self.tokens[i] {
            CssToken::HashToken(v) => {
                let s = Selector::IdSelector(v.clone());
                self.pos = i + 1;
                Some(s)
            },
            CssToken::Ident(v) => {
                let s = Selector::TypeSelector(v.clone());
                self.pos = i + 1;
                Some(s)
            },
            CssToken::OpenCurly => None,
            CssToken::Delim(d) => {
                if *d != '.' {
                    self.pos = i + 1;
                    return Some(Selector::UnknownSelector);
                }
                if i + 1 < len {
                    match &self.tokens[i + 1] {
                        CssToken::Ident(n) => {
                            let s = Selector::ClassSelector(n.clone());
                            self.pos = i + 2;
                            return Some(s);
                        },
                        _ => {},
                    }
                }
                None
            },
            _ => {
                self.pos = i + 1;
                Some(Selector::UnknownSelector)
            },
        }
    }

    fn find_open_curly(&self) -> (r: usize)
        requires
            self.wf(),
        ensures
            r == find_open(self.spec_tokens(), self.spec_pos()),
    {
        let mut j = self.pos;
        while j < self.tokens.len() && !is_open_curly(&self.tokens[j])
            invariant
                self.pos <= j <= self.tokens@.len(),
                find_open(self.spec_tokens(), j as int) == find_open(
                    self.spec_tokens(),
                    self.spec_pos(),
                ),
            decreases self.tokens@.len() - j,
        {
            j = j + 1;
        }
        j
    }

    fn consume_list_of_declarations(&mut self) -> (r: Vec<Declaration>)
        requires
            old(self).wf(),
        ensures
            final(self).wf(),
            final(self).tokens@ == old(self).tokens@,
            declarations_model(r@) == declarations_at(old(self).spec_tokens(), old(self).spec_pos()).0,
            final(self).spec_pos() == declarations_at(old(self).spec_tokens(), old(self).spec_pos()).1,
    {
        let mut ds: Vec<Declaration> = Vec::new();
        let ghost ts = self.spec_tokens();
        let len = self.tokens.len();
        loop
            invariant
                self.wf(),
                self.tokens@ == old(self).tokens@,
                ts == self.spec_tokens(),
                len == ts.len(),
                declarations_model(ds@) + declarations_at(ts, self.spec_pos()).0 == declarations_at(
                    ts,
                    old(self).spec_pos(),
                ).0,
                declarations_at(ts, self.spec_pos()).1 == declarations_at(ts, old(self).spec_pos()).1,
            decreases len - self.spec_pos(),
        {
            let ghost seen = ds@;
            let i = self.pos;
            if i >= len {
                proof {
                    assert(declarations_model(ds@) =~= declarations_model(ds@) + declarations_at(
                        ts,
                        i as int,
                    ).0);
                }
                return ds;
            }
            if is_close_curly(&self.tokens[i]) {
                self.pos = i + 1;
                proof {
                    assert(declarations_model(ds@) =~= declarations_model(ds@) + declarations_at(
                        ts,
                        i as int,
                    ).0);
                }
                return ds;
            }
            match &self.tokens[i] {
                CssToken::Ident(p) => {
                    if len - i > 2 && is_colon(&self.tokens[i + 1]) {
                        let mut d = Declaration::new();
                        d.set_property(p.clone());
                        d.set_value(copy_token(&self.tokens[i + 2]));
                        ds.push(d);
                        self.pos = i + 3;
                        proof {
                            assert(declarations_model(ds@) =~= declarations_model(seen).push(d@));
                            assert(declarations_model(ds@) + declarations_at(ts, self.spec_pos()).0
                                =~= declarations_model(seen) + declarations_at(ts, i as int).0);
                        }
                    } else {
                        self.pos = i + 1;
                    }
                },
                _ => {
                    self.pos = i + 1;
                },
            }
        }
    }

    fn consume_qualified_rule(&mut self) -> (r: Option<QualifiedRule>)
        requires
            old(self).wf(),
        ensures
            final(self).wf(),
            final(self).tokens@ == old(self).tokens@,
            match qualified_rule_at(old(self).spec_tokens(), old(self).spec_pos()) {
                None => r is None && final(self).spec_pos() == give_up_at(
                    old(self).spec_tokens(),
                    old(self).spec_pos(),
                ),
                Some((rule, e)) => r is Some && r->0@ == rule && final(self).spec_pos() == e,
            },
    {
        let ghost ts = self.spec_tokens();
        let selector = match self.consume_selector() {
            Some(s) => s,
            None => {
                return None;
            },
        };
        proof {
            lemma_ends(ts, self.spec_pos(), 1);
        }
        let k = self.find_open_curly();
        if k >= self.tokens.len() {
            self.pos = self.tokens.len();
            return None;
        }
        self.pos = k + 1;
        let declarations = self.consume_list_of_declarations();
        let mut rule = QualifiedRule::new();
        rule.set_selector(selector);
        rule.set_declarations(declarations);
        Some(rule)
    }
}

} // verus!
