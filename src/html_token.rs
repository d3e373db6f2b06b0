use vstd::prelude::*;
use crate::attribute::{Attribute, push_char};
use crate::html_model::{
    TokenModel, TokenizerModel, State, lower, is_char, alpha_at, char_at, new_tag,
    tag_name_pushed, attribute_started, attribute_pushed, self_closing_set, with_slot, step,
    measure, model_wf, run, all_tokens, lemma_step, lemma_run,
};
use crate::attribute::add_char_model;
use vstd::std_specs::iter::IteratorSpec;

verus! {

/// Relies on char::to_ascii_lowercase: ASCII capitals become small letters, other characters
/// stay as they are.
#[verifier::external_body]
fn to_ascii_lower(c: char) -> (r: char)
    ensures
        r == lower(c),
{
    c.to_ascii_lowercase()
}

/// The characters of `s`, in order.
pub(crate) fn chars_of(s: &String) -> (r: Vec<char>)
    ensures
        r@ == s@,
{
    broadcast use vstd::string::axiom_spec_iter, vstd::string::next_postcondition;

    let mut v: Vec<char> = Vec::new();
    let mut it = s.as_str().chars();
    loop
        invariant
            v@ + it.remaining() == s@,
            it.decrease() is Some,
        decreases it.decrease()->0,
    {
        let ghost before = it.remaining();
        match it.next() {
            Some(c) => {
                v.push(c);
                proof {
                    assert(before =~= seq![c] + it.remaining());
                }
            },
            None => {
                proof {
                    assert(v@ =~= s@);
                }
                return v;
            },
        }
    }
}

fn is_exactly(c: Option<char>, d: char) -> (r: bool)
    ensures
        r == is_char(c, d),
{
    match c {
        Some(x) => x == d,
        None => false,
    }
}

fn is_alpha_at(c: Option<char>) -> (r: bool)
    ensures
        r == alpha_at(c),
{
    match c {
        Some(x) => ('A' <= x && x <= 'Z') || ('a' <= x && x <= 'z'),
        None => false,
    }
}

fn at_end(c: Option<char>) -> (r: bool)
    ensures
        r == (c is None),
{
    match c {
        Some(_) => false,
        None => true,
    }
}

/// A token of an HTML document.
#[derive(Debug, Clone, PartialEq, Eq)]
pub enum HtmlToken {
    StartTag { tag: String, self_closing: bool, attributes: Vec<Attribute> },
    EndTag { tag: String },
    Char(char),
    Eof,
}

pub open spec fn attributes_model(a: Seq<Attribute>) -> Seq<crate::attribute::AttributeModel> {
    a.map_values(|x: Attribute| x@)
}

impl View for HtmlToken {
    type V = TokenModel;

    open spec fn view(&self) -> TokenModel {
        match self {
            HtmlToken::StartTag { tag, self_closing, attributes } => TokenModel::StartTag {
                tag: tag@,
                self_closing: *self_closing,
                attributes: attributes_model(attributes@),
            },
            HtmlToken::EndTag { tag } => TokenModel::EndTag { tag: tag@ },
            HtmlToken::Char(c) => TokenModel::Char(*c),
            HtmlToken::Eof => TokenModel::Eof,
        }
    }
}

pub open spec fn opt_model(t: Option<HtmlToken>) -> Option<TokenModel> {
    match t {
        Some(x) => Some(x@),
        None => None,
    }
}

pub open spec fn tokens_model(ts: Seq<HtmlToken>) -> Seq<TokenModel> {
    ts.map_values(|t: HtmlToken| t@)
}

/// The tokenizer's state before it has read anything of `input`.
pub open spec fn initial(input: Seq<char>) -> TokenizerModel {
    TokenizerModel {
        state: State::Data,
        pos: 0,
        reconsume: false,
        slot: None,
        input,
        buf: Seq::empty(),
        done: false,
    }
}

/// Turns an HTML document into tokens, one token per call of `next`.
#[derive(Debug, Clone, PartialEq, Eq)]
pub struct HtmlTokenizer {
    state: State,
    pos: usize,
    reconsume: bool,
    latest_token: Option<HtmlToken>,
    input: Vec<char>,
    buf: Vec<char>,
    done: bool,
}

impl View for HtmlTokenizer {
    type V = TokenizerModel;

    closed spec fn view(&self) -> TokenizerModel {
        TokenizerModel {
            state: self.state,
            pos: self.pos as int,
            reconsume: self.reconsume,
            slot: opt_model(self.latest_token),
            input: self.input@,
            buf: self.buf@,
            done: self.done,
        }
    }
}

impl HtmlTokenizer {
    pub open spec fn wf(&self) -> bool {
        model_wf(self@)
    }

    pub fn new(html: String) -> (r: Self)
        requires
            html@.len() < usize::MAX,
        ensures
            r.wf(),
            r@ == initial(html@),
    {
        HtmlTokenizer {
            state: State::Data,
            pos: 0,
            reconsume: false,
            latest_token: None,
            input: chars_of(&html),
            buf: Vec::new(),
            done: false,
        }
    }

    fn consume_next_input(&mut self) -> (r: Option<char>)
        requires
            old(self)@.pos <= old(self)@.input.len(),
            old(self)@.input.len() < usize::MAX,
        ensures
            r == char_at(old(self)@.input, old(self)@.pos),
            final(self)@ == (TokenizerModel { pos: old(self)@.pos + 1, ..old(self)@ }),
    {
        let c = if self.pos < self.input.len() {
            Some(self.input[self.pos])
        } else {
            None
        };
        self.pos = self.pos + 1;
        c
    }

    fn reconsume_input(&mut self) -> (r: Option<char>)
        requires
            old(self)@.pos >= 1,
        ensures
            r == char_at(old(self)@.input, old(self)@.pos - 1),
            final(self)@ == (TokenizerModel { reconsume: false, ..old(self)@ }),
    {
        self.reconsume = false;
        let i = self.pos - 1;
        if i < self.input.len() {
            Some(self.input[i])
        } else {
            None
        }
    }

    fn crate_tag(&mut self, start_tag_token: bool)
        ensures
            final(self)@ == with_slot(old(self)@, Some(new_tag(start_tag_token))),
    {
        if start_tag_token {
            let attributes: Vec<Attribute> = Vec::new();
            proof {
                assert(attributes_model(attributes@) =~= Seq::empty());
            }
            self.latest_token = Some(
                HtmlToken::StartTag { tag: String::new(), self_closing: false, attributes },
            );
        } else {
            self.latest_token = Some(HtmlToken::EndTag { tag: String::new() });
        }
    }

    fn append_tag_name(&mut self, c: char)
        requires
            old(self)@.slot is Some,
            old(self)@.slot->0 is StartTag || old(self)@.slot->0 is EndTag,
        ensures
            final(self)@ == with_slot(old(self)@, tag_name_pushed(old(self)@.slot, c)),
    {
        let t = self.latest_token.take();
        match t {
            Some(HtmlToken::StartTag { tag, self_closing, attributes }) => {
                let mut tag = tag;
                push_char(&mut tag, c);
                self.latest_token = Some(HtmlToken::StartTag { tag, self_closing, attributes });
            },
            Some(HtmlToken::EndTag { tag }) => {
                let mut tag = tag;
                push_char(&mut tag, c);
                self.latest_token = Some(HtmlToken::EndTag { tag });
            },
            other => {
                self.latest_token = other;
            },
        }
    }

    fn take_latest_token(&mut self) -> (r: Option<HtmlToken>)
        requires
            old(self)@.slot is Some,
        ensures
            opt_model(r) == old(self)@.slot,
            final(self)@ == with_slot(old(self)@, None),
    {
        self.latest_token.take()
    }

    fn start_new_attribute(&mut self)
        requires
            old(self)@.slot is Some,
        ensures
            final(self)@ == with_slot(old(self)@, attribute_started(old(self)@.slot)),
    {
        let t = self.latest_token.take();
        match t {
            Some(HtmlToken::StartTag { tag, self_closing, attributes }) => {
                let mut attributes = attributes;
                let ghost before = attributes@;
                let a = Attribute::new();
                attributes.push(a);
                proof {
                    assert(attributes_model(attributes@) =~= attributes_model(before).push(
                        crate::attribute::AttributeModel { name: Seq::empty(), value: Seq::empty() },
                    ));
                }
                self.latest_token = Some(HtmlToken::StartTag { tag, self_closing, attributes });
            },
            other => {
                self.latest_token = other;
            },
        }
    }

    fn append_attribute(&mut self, c: char, is_name: bool)
        requires
            old(self)@.slot is Some,
            old(self)@.slot->0 is StartTag ==> old(self)@.slot->0->StartTag_attributes.len() > 0,
        ensures
            final(self)@ == with_slot(old(self)@, attribute_pushed(old(self)@.slot, c, is_name)),
    {
        let t = self.latest_token.take();
        match t {
            Some(HtmlToken::StartTag { tag, self_closing, attributes }) => {
                let mut attributes = attributes;
                let ghost before = attributes@;
                match attributes.pop() {
                    Some(a) => {
                        let mut a = a;
                        a.add_char(c, is_name);
                        attributes.push(a);
                        proof {
                            let k = before.len() - 1;
                            assert(attributes_model(attributes@) =~= attributes_model(
                                before,
                            ).update(k, add_char_model(attributes_model(before).last(), c, is_name)));
                        }
                    },
                    None => {},
                }
                self.latest_token = Some(HtmlToken::StartTag { tag, self_closing, attributes });
            },
            other => {
                self.latest_token = other;
            },
        }
    }

    fn set_self_closing_flag(&mut self)
        requires
            old(self)@.slot is Some,
        ensures
            final(self)@ == with_slot(old(self)@, self_closing_set(old(self)@.slot)),
    {
        let t = self.latest_token.take();
        match t {
            Some(HtmlToken::StartTag { tag, self_closing: _, attributes }) => {
                self.latest_token = Some(
                    HtmlToken::StartTag { tag, self_closing: true, attributes },
                );
            },
            other => {
                self.latest_token = other;
            },
        }
    }

    fn emit_tag(&mut self) -> (r: Option<HtmlToken>)
        requires
            old(self)@.slot is Some,
        ensures
            opt_model(r) == old(self)@.slot,
            final(self)@ == (TokenizerModel { state: State::Data, slot: None, ..old(self)@ }),
    {
        self.state = State::Data;
        self.take_latest_token()
    }

    fn emit_eof(&mut self) -> (r: Option<HtmlToken>)
        ensures
            opt_model(r) == Some(TokenModel::Eof),
            final(self)@ == (TokenizerModel { done: true, ..old(self)@ }),
    {
        self.done = true;
        Some(HtmlToken::Eof)
    }

    /// One turn of the loop: reads a character (or the same one again) and acts on it.
    #[verifier::rlimit(80)]
    fn step(&mut self) -> (r: Option<HtmlToken>)
        requires
            model_wf(old(self)@),
            !old(self)@.done,
        ensures
            (final(self)@, opt_model(r)) == step(old(self)@),
    {
        let c: Option<char> = if self.reconsume {
            self.reconsume_input()
        } else {
            self.consume_next_input()
        };
        let ch: char = match c {
            Some(x) => x,
            None => ' ',
        };
        match self.state {
            State::Data => {
                if is_exactly(c, '<') {
                    self.state = State::TagOpen;
                    return None;
                }
                if at_end(c) {
                    return self.emit_eof();
                }
                Some(HtmlToken::Char(ch))
            },
            State::TagOpen => {
                if is_exactly(c, '/') {
                    self.state = State::EndTagOpen;
                    return None;
                }
                if is_alpha_at(c) {
                    self.crate_tag(true);
                    self.again(State::TagName);
                    return None;
                }
                if at_end(c) {
                    return self.emit_eof();
                }
                self.again(State::Data);
                None
            },
            State::EndTagOpen => {
                if at_end(c) {
                    return self.emit_eof();
                }
                if is_alpha_at(c) {
                    self.crate_tag(false);
                    self.again(State::TagName);
                    return None;
                }
                self.again(State::Data);
                None
            },
            State::TagName => {
                if is_exactly(c, ' ') {
                    self.state = State::BeforeAttributeName;
                    return None;
                }
                if is_exactly(c, '/') {
                    self.state = State::SelfClosingStartTag;
                    return None;
                }
                if is_exactly(c, '>') {
                    return self.emit_tag();
                }
                if at_end(c) {
                    return self.emit_eof();
                }
                self.append_tag_name(to_ascii_lower(ch));
                None
            },
            State::BeforeAttributeName => {
                if is_exactly(c, '/') || is_exactly(c, '>') || at_end(c) {
                    self.again(State::AfterAttributeName);
                    return None;
                }
                self.start_new_attribute();
                self.again(State::AttributeName);
                None
            },
            State::AttributeName => {
                if is_exactly(c, ' ') || is_exactly(c, '/') || is_exactly(c, '>') || at_end(c) {
                    self.again(State::AfterAttributeName);
                    return None;
                }
                if is_exactly(c, '=') {
                    self.state = State::BeforeAttributeValue;
                    return None;
                }
                self.append_attribute(to_ascii_lower(ch), true);
                None
            },
            State::AfterAttributeName => {
                if is_exactly(c, ' ') {
                    return None;
                }
                if is_exactly(c, '/') {
                    self.state = State::SelfClosingStartTag;
                    return None;
                }
                if is_exactly(c, '=') {
                    self.state = State::BeforeAttributeValue;
                    return None;
                }
                if is_exactly(c, '>') {
                    return self.emit_tag();
                }
                if at_end(c) {
                    return self.emit_eof();
                }
                self.start_new_attribute();
                self.again(State::AttributeName);
                None
            },
            State::BeforeAttributeValue => {
                if is_exactly(c, ' ') {
                    return None;
                }
                if is_exactly(c, '"') {
                    self.state = State::AttributeValueDoubleQuoted;
                    return None;
                }
                if is_exactly(c, '\'') {
                    self.state = State::AttributeValueSingleQuoted;
                    return None;
                }
                if is_exactly(c, '>') {
                    return self.emit_tag();
                }
                if at_end(c) {
                    return self.emit_eof();
                }
                self.again(State::AttributeValueUnquoted);
                None
            },
            State::AttributeValueDoubleQuoted => {
                if is_exactly(c, '"') {
                    self.state = State::AfterAttributeValueQuoted;
                    return None;
                }
                if at_end(c) {
                    return self.emit_eof();
                }
                self.append_attribute(ch, false);
                None
            },
            State::AttributeValueSingleQuoted => {
                if is_exactly(c, '\'') {
                    self.state = State::AfterAttributeValueQuoted;
                    return None;
                }
                if at_end(c) {
                    return self.emit_eof();
                }
                self.append_attribute(ch, false);
                None
            },
            State::AttributeValueUnquoted => {
                if is_exactly(c, ' ') {
                    self.state = State::BeforeAttributeName;
                    return None;
                }
                if is_exactly(c, '>') {
                    return self.emit_tag();
                }
                if at_end(c) {
                    return self.emit_eof();
                }
                self.append_attribute(ch, false);
                None
            },
            State::AfterAttributeValueQuoted => {
                if is_exactly(c, ' ') {
                    self.state = State::BeforeAttributeName;
                    return None;
                }
                if is_exactly(c, '/') {
                    self.state = State::SelfClosingStartTag;
                    return None;
                }
                if is_exactly(c, '>') {
                    return self.emit_tag();
                }
                if at_end(c) {
                    return self.emit_eof();
                }
                self.again(State::BeforeAttributeName);
                None
            },
            State::SelfClosingStartTag => {
                if is_exactly(c, '>') {
                    self.set_self_closing_flag();
                    return self.emit_tag();
                }
                if at_end(c) {
                    return self.emit_eof();
                }
                self.again(State::BeforeAttributeName);
                None
            },
            State::ScriptData => {
                if is_exactly(c, '<') {
                    self.state = State::ScriptDataLessThanSign;
                    return None;
                }
                if at_end(c) {
                    return self.emit_eof();
                }
                Some(HtmlToken::Char(ch))
            },
            State::ScriptDataLessThanSign => {
                if is_exactly(c, '/') {
                    self.buf = Vec::new();
                    self.state = State::ScriptDataEndTagOpen;
                    return None;
                }
                self.again(State::ScriptData);
                Some(HtmlToken::Char('<'))
            },
            State::ScriptDataEndTagOpen => {
                if is_alpha_at(c) {
                    self.crate_tag(false);
                    self.again(State::ScriptDataEndTagName);
                    return None;
                }
                self.buf = vec!['<', '/'];
                proof {
                    assert(self.buf@ =~= seq!['<', '/']);
                }
                self.again(State::TemporaryBuffer);
                None
            },
            State::ScriptDataEndTagName => {
                if is_exactly(c, '>') {
                    return self.emit_tag();
                }
                if is_alpha_at(c) {
                    self.buf.push(ch);
                    self.append_tag_name(to_ascii_lower(ch));
                    return None;
                }
                let mut flushed: Vec<char> = vec!['<', '/'];
                let ghost head = flushed@;
                let mut i: usize = 0;
                while i < self.buf.len()
                    invariant
                        0 <= i <= self.buf@.len(),
                        head =~= seq!['<', '/'],
                        flushed@ =~= head + self.buf@.subrange(0, i as int),
                    decreases self.buf@.len() - i,
                {
                    flushed.push(self.buf[i]);
                    proof {
                        assert(self.buf@.subrange(0, i + 1) =~= self.buf@.subrange(
                            0,
                            i as int,
                        ).push(self.buf@[i as int]));
                    }
                    i = i + 1;
                }
                proof {
                    assert(self.buf@.subrange(0, i as int) =~= self.buf@);
                }
                self.buf = flushed;
                self.latest_token = None;
                self.again(State::TemporaryBuffer);
                None
            },
            State::TemporaryBuffer => {
                if self.buf.len() > 0 {
                    let first = self.buf.remove(0);
                    proof {
                        assert(self.buf@ =~= old(self)@.buf.drop_first());
                    }
                    self.reconsume = true;
                    return Some(HtmlToken::Char(first));
                }
                self.again(State::ScriptData);
                None
            },
        }
    }

    /// The next token; `None` once `Eof` has been handed out.
    pub fn next(&mut self) -> (r: Option<HtmlToken>)
        requires
            old(self).wf(),
        ensures
            final(self).wf(),
            (final(self)@, opt_model(r)) == run(old(self)@),
    {
        if self.done {
            return None;
        }
        loop
            invariant
                model_wf(self@),
                !self@.done,
                run(self@) == run(old(self)@),
            decreases measure(self@),
        {
            proof {
                lemma_step(self@);
            }
            let out = self.step();
            match out {
                Some(t) => {
                    return Some(t);
                },
                None => {},
            }
        }
    }

    /// Every token from here on, up to and including `Eof`.
    pub fn collect_tokens(&mut self) -> (r: Vec<HtmlToken>)
        requires
            old(self).wf(),
        ensures
            final(self).wf(),
            final(self)@.done,
            tokens_model(r@) == all_tokens(old(self)@),
    {
        let mut out: Vec<HtmlToken> = Vec::new();
        if self.done {
            proof {
                assert(tokens_model(out@) =~= Seq::<TokenModel>::empty());
            }
            return out;
        }
        loop
            invariant
                model_wf(self@),
                !self@.done,
                tokens_model(out@) + all_tokens(self@) == all_tokens(old(self)@),
            decreases measure(self@),
        {
            proof {
                lemma_run(self@);
            }
            let ghost before = self@;
            let ghost seen = out@;
            let t = self.next();
            match t {
                Some(tok) => {
                    out.push(tok);
                    proof {
                        assert(tokens_model(out@) =~= tokens_model(seen).push(tok@));
                        if self@.done {
                            assert(all_tokens(before) =~= seq![tok@]);
                            assert(tokens_model(out@) =~= all_tokens(old(self)@));
                        } else {
                            assert(all_tokens(before) =~= seq![tok@] + all_tokens(self@));
                            assert(tokens_model(out@) + all_tokens(self@) =~= tokens_model(seen)
                                + all_tokens(before));
                        }
                    }
                    if self.done {
                        return out;
                    }
                },
                None => {
                    return out;
                },
            }
        }
    }

    fn again(&mut self, s: State)
        ensures
            final(self)@ == (TokenizerModel { state: s, reconsume: true, ..old(self)@ }),
    {
        self.state = s;
        self.reconsume = true;
    }
}

} // verus!
