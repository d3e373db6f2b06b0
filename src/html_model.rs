use vstd::prelude::*;
use crate::attribute::{AttributeModel, add_char_model};

verus! {

pub open spec fn is_upper(c: char) -> bool {
    'A' <= c && c <= 'Z'
}

pub open spec fn is_alpha(c: char) -> bool {
    is_upper(c) || ('a' <= c && c <= 'z')
}

/// ASCII case folding of one character.
pub open spec fn lower(c: char) -> char {
    if is_upper(c) {
        ((c as u32) + 32) as char
    } else {
        c
    }
}

pub open spec fn no_upper(s: Seq<char>) -> bool {
    forall|i: int| 0 <= i < s.len() ==> !is_upper(#[trigger] s[i])
}

/// A token as the tokenizer's contracts see it.
pub ghost enum TokenModel {
    StartTag { tag: Seq<char>, self_closing: bool, attributes: Seq<AttributeModel> },
    EndTag { tag: Seq<char> },
    Char(char),
    Eof,
}

/// Tag and attribute names hold no ASCII capital.
pub open spec fn token_lower(t: TokenModel) -> bool {
    match t {
        TokenModel::StartTag { tag, attributes, .. } => no_upper(tag) && forall|j: int|
            0 <= j < attributes.len() ==> no_upper(#[trigger] attributes[j].name),
        TokenModel::EndTag { tag } => no_upper(tag),
        _ => true,
    }
}

/// The tokenizer's states.
#[derive(Debug, Clone, Copy, PartialEq, Eq, Structural)]
pub enum State {
    Data,
    TagOpen,
    EndTagOpen,
    TagName,
    BeforeAttributeName,
    AttributeName,
    AfterAttributeName,
    BeforeAttributeValue,
    AttributeValueDoubleQuoted,
    AttributeValueSingleQuoted,
    AttributeValueUnquoted,
    AfterAttributeValueQuoted,
    SelfClosingStartTag,
    ScriptData,
    ScriptDataLessThanSign,
    ScriptDataEndTagOpen,
    ScriptDataEndTagName,
    TemporaryBuffer,
}

/// The states in which a tag is being built.
pub open spec fn builds_tag(s: State) -> bool {
    match s {
        State::TagName | State::BeforeAttributeName | State::AttributeName
        | State::AfterAttributeName | State::BeforeAttributeValue
        | State::AttributeValueDoubleQuoted | State::AttributeValueSingleQuoted
        | State::AttributeValueUnquoted | State::AfterAttributeValueQuoted
        | State::SelfClosingStartTag | State::ScriptDataEndTagName => true,
        _ => false,
    }
}

/// The whole state of a tokenizer.
pub ghost struct TokenizerModel {
    pub state: State,
    pub pos: int,
    pub reconsume: bool,
    pub slot: Option<TokenModel>,
    pub input: Seq<char>,
    pub buf: Seq<char>,
    pub done: bool,
}

/// The character at `i`, or `None` past the end of the input.
pub open spec fn char_at(input: Seq<char>, i: int) -> Option<char> {
    if 0 <= i < input.len() {
        Some(input[i])
    } else {
        None
    }
}

pub open spec fn is_char(c: Option<char>, d: char) -> bool {
    c == Some(d)
}

pub open spec fn alpha_at(c: Option<char>) -> bool {
    c is Some && is_alpha(c->0)
}

pub open spec fn new_tag(start: bool) -> TokenModel {
    if start {
        TokenModel::StartTag { tag: Seq::empty(), self_closing: false, attributes: Seq::empty() }
    } else {
        TokenModel::EndTag { tag: Seq::empty() }
    }
}

pub open spec fn tag_name_pushed(slot: Option<TokenModel>, c: char) -> Option<TokenModel> {
    match slot {
        Some(TokenModel::StartTag { tag, self_closing, attributes }) => Some(
            TokenModel::StartTag { tag: tag.push(c), self_closing, attributes },
        ),
        Some(TokenModel::EndTag { tag }) => Some(TokenModel::EndTag { tag: tag.push(c) }),
        _ => slot,
    }
}

/// A new empty attribute at the end of a start tag's list; an end tag keeps none.
pub open spec fn attribute_started(slot: Option<TokenModel>) -> Option<TokenModel> {
    match slot {
        Some(TokenModel::StartTag { tag, self_closing, attributes }) => Some(
            TokenModel::StartTag {
                tag,
                self_closing,
                attributes: attributes.push(AttributeModel { name: Seq::empty(), value: Seq::empty() }),
            },
        ),
        _ => slot,
    }
}

/// `c` appended to the name or the value of the last attribute of a start tag.
pub open spec fn attribute_pushed(slot: Option<TokenModel>, c: char, is_name: bool) -> Option<TokenModel> {
    match slot {
        Some(TokenModel::StartTag { tag, self_closing, attributes }) => if attributes.len() > 0 {
            Some(
                TokenModel::StartTag {
                    tag,
                    self_closing,
                    attributes: attributes.update(
                        attributes.len() - 1,
                        add_char_model(attributes.last(), c, is_name),
                    ),
                },
            )
        } else {
            slot
        },
        _ => slot,
    }
}

pub open spec fn self_closing_set(slot: Option<TokenModel>) -> Option<TokenModel> {
    match slot {
        Some(TokenModel::StartTag { tag, attributes, .. }) => Some(
            TokenModel::StartTag { tag, self_closing: true, attributes },
        ),
        _ => slot,
    }
}

pub open spec fn goto(m: TokenizerModel, s: State) -> (TokenizerModel, Option<TokenModel>) {
    (TokenizerModel { state: s, ..m }, None)
}

/// Switches to `s`, which reads the same character again.
pub open spec fn again(m: TokenizerModel, s: State) -> (TokenizerModel, Option<TokenModel>) {
    (TokenizerModel { state: s, reconsume: true, ..m }, None)
}

pub open spec fn stay(m: TokenizerModel) -> (TokenizerModel, Option<TokenModel>) {
    (m, None)
}

pub open spec fn with_slot(m: TokenizerModel, slot: Option<TokenModel>) -> TokenizerModel {
    TokenizerModel { slot, ..m }
}

pub open spec fn emit_eof(m: TokenizerModel) -> (TokenizerModel, Option<TokenModel>) {
    (TokenizerModel { done: true, ..m }, Some(TokenModel::Eof))
}

/// Back to `Data`, handing out the tag that was built.
pub open spec fn emit_tag(m: TokenizerModel) -> (TokenizerModel, Option<TokenModel>) {
    (TokenizerModel { state: State::Data, slot: None, ..m }, m.slot)
}

/// What state `m.state` does on the character `c` (`None` at the end of the input).
pub open spec fn transition(m: TokenizerModel, c: Option<char>) -> (TokenizerModel, Option<TokenModel>) {
    match m.state {
        State::Data => if is_char(c, '<') {
            goto(m, State::TagOpen)
        } else if c is None {
            emit_eof(m)
        } else {
            (m, Some(TokenModel::Char(c->0)))
        },
        State::TagOpen => if is_char(c, '/') {
            goto(m, State::EndTagOpen)
        } else if alpha_at(c) {
            again(with_slot(m, Some(new_tag(true))), State::TagName)
        } else if c is None {
            emit_eof(m)
        } else {
            again(m, State::Data)
        },
        State::EndTagOpen => if c is None {
            emit_eof(m)
        } else if alpha_at(c) {
            again(with_slot(m, Some(new_tag(false))), State::TagName)
        } else {
            again(m, State::Data)
        },
        State::TagName => if is_char(c, ' ') {
            goto(m, State::BeforeAttributeName)
        } else if is_char(c, '/') {
            goto(m, State::SelfClosingStartTag)
        } else if is_char(c, '>') {
            emit_tag(m)
        } else if c is None {
            emit_eof(m)
        } else {
            stay(with_slot(m, tag_name_pushed(m.slot, lower(c->0))))
        },
        State::BeforeAttributeName => if is_char(c, '/') || is_char(c, '>') || c is None {
            again(m, State::AfterAttributeName)
        } else {
            again(with_slot(m, attribute_started(m.slot)), State::AttributeName)
        },
        State::AttributeName => if is_char(c, ' ') || is_char(c, '/') || is_char(c, '>')
            || c is None {
            again(m, State::AfterAttributeName)
        } else if is_char(c, '=') {
            goto(m, State::BeforeAttributeValue)
        } else {
            stay(with_slot(m, attribute_pushed(m.slot, lower(c->0), true)))
        },
        State::AfterAttributeName => if is_char(c, ' ') {
            stay(m)
        } else if is_char(c, '/') {
            goto(m, State::SelfClosingStartTag)
        } else if is_char(c, '=') {
            goto(m, State::BeforeAttributeValue)
        } else if is_char(c, '>') {
            emit_tag(m)
        } else if c is None {
            emit_eof(m)
        } else {
            again(with_slot(m, attribute_started(m.slot)), State::AttributeName)
        },
        State::BeforeAttributeValue => if is_char(c, ' ') {
            stay(m)
        } else if is_char(c, '"') {
            goto(m, State::AttributeValueDoubleQuoted)
        } else if is_char(c, '\'') {
            goto(m, State::AttributeValueSingleQuoted)
        } else if is_char(c, '>') {
            emit_tag(m)
        } else if c is None {
            emit_eof(m)
        } else {
            again(m, State::AttributeValueUnquoted)
        },
        State::AttributeValueDoubleQuoted => if is_char(c, '"') {
            goto(m, State::AfterAttributeValueQuoted)
        } else if c is None {
            emit_eof(m)
        } else {
            stay(with_slot(m, attribute_pushed(m.slot, c->0, false)))
        },
        State::AttributeValueSingleQuoted => if is_char(c, '\'') {
            goto(m, State::AfterAttributeValueQuoted)
        } else if c is None {
            emit_eof(m)
        } else {
            stay(with_slot(m, attribute_pushed(m.slot, c->0, false)))
        },
        State::AttributeValueUnquoted => if is_char(c, ' ') {
            goto(m, State::BeforeAttributeName)
        } else if is_char(c, '>') {
            emit_tag(m)
        } else if c is None {
            emit_eof(m)
        } else {
            stay(with_slot(m, attribute_pushed(m.slot, c->0, false)))
        },
        State::AfterAttributeValueQuoted => if is_char(c, ' ') {
            goto(m, State::BeforeAttributeName)
        } else if is_char(c, '/') {
            goto(m, State::SelfClosingStartTag)
        } else if is_char(c, '>') {
            emit_tag(m)
        } else if c is None {
            emit_eof(m)
        } else {
            again(m, State::BeforeAttributeName)
        },
        State::SelfClosingStartTag => if is_char(c, '>') {
            emit_tag(with_slot(m, self_closing_set(m.slot)))
        } else if c is None {
            emit_eof(m)
        } else {
            again(m, State::BeforeAttributeName)
        },
        State::ScriptData => if is_char(c, '<') {
            goto(m, State::ScriptDataLessThanSign)
        } else if c is None {
            emit_eof(m)
        } else {
            (m, Some(TokenModel::Char(c->0)))
        },
        State::ScriptDataLessThanSign => if is_char(c, '/') {
            (TokenizerModel { state: State::ScriptDataEndTagOpen, buf: Seq::empty(), ..m }, None)
        } else {
            (
                TokenizerModel { state: State::ScriptData, reconsume: true, ..m },
                Some(TokenModel::Char('<')),
            )
        },
        State::ScriptDataEndTagOpen => if alpha_at(c) {
            again(with_slot(m, Some(new_tag(false))), State::ScriptDataEndTagName)
        } else {
            (
                TokenizerModel {
                    state: State::TemporaryBuffer,
                    reconsume: true,
                    buf: seq!['<', '/'],
                    ..m
                },
                None,
            )
        },
        State::ScriptDataEndTagName => if is_char(c, '>') {
            emit_tag(m)
        } else if alpha_at(c) {
            stay(
                TokenizerModel {
                    buf: m.buf.push(c->0),
                    slot: tag_name_pushed(m.slot, lower(c->0)),
                    ..m
                },
            )
        } else {
            (
                TokenizerModel {
                    state: State::TemporaryBuffer,
                    reconsume: true,
                    slot: None,
                    buf: seq!['<', '/'] + m.buf,
                    ..m
                },
                None,
            )
        },
        State::TemporaryBuffer => if m.buf.len() > 0 {
            (
                TokenizerModel { reconsume: true, buf: m.buf.drop_first(), ..m },
                Some(TokenModel::Char(m.buf[0])),
            )
        } else {
            again(m, State::ScriptData)
        },
    }
}

/// One turn of the loop: read the next character (or the same one again), then act on it.
pub open spec fn step(m: TokenizerModel) -> (TokenizerModel, Option<TokenModel>) {
    if m.reconsume {
        transition(TokenizerModel { reconsume: false, ..m }, char_at(m.input, m.pos - 1))
    } else {
        transition(TokenizerModel { pos: m.pos + 1, ..m }, char_at(m.input, m.pos))
    }
}

/// How many more turns a state may take on a character that it reads again.
pub open spec fn chain(s: State, c: Option<char>) -> nat {
    match s {
        State::TagOpen | State::EndTagOpen | State::BeforeAttributeValue
        | State::ScriptDataLessThanSign | State::TemporaryBuffer => 1,
        State::BeforeAttributeName => if is_char(c, ' ') {
            2
        } else {
            1
        },
        State::AttributeName => if is_char(c, ' ') || is_char(c, '/') || is_char(c, '>')
            || c is None {
            1
        } else {
            0
        },
        State::AfterAttributeName => if is_char(c, ' ') || is_char(c, '/') || is_char(c, '=')
            || is_char(c, '>') || c is None {
            0
        } else {
            1
        },
        State::AfterAttributeValueQuoted | State::SelfClosingStartTag => 3,
        State::ScriptDataEndTagOpen => if alpha_at(c) {
            1
        } else {
            10
        },
        State::ScriptDataEndTagName => if alpha_at(c) || is_char(c, '>') {
            0
        } else {
            10
        },
        _ => 0,
    }
}

/// Falls with every turn of the loop.
pub open spec fn measure(m: TokenizerModel) -> nat {
    let left: nat = if m.pos <= m.input.len() + 1 {
        (m.input.len() + 1 - m.pos) as nat
    } else {
        0
    };
    let pending: nat = if m.reconsume {
        16 + chain(m.state, char_at(m.input, m.pos - 1))
    } else {
        0
    };
    32 * left + pending + 4 * m.buf.len()
}

/// The states that append to the last attribute, or that a value follows.
pub open spec fn in_attribute(s: State) -> bool {
    match s {
        State::AttributeName | State::BeforeAttributeValue | State::AttributeValueDoubleQuoted
        | State::AttributeValueSingleQuoted | State::AttributeValueUnquoted
        | State::AfterAttributeValueQuoted => true,
        _ => false,
    }
}

/// A start tag has an open attribute wherever one is appended to. After its name, a start
/// tag without attributes is only ever about to read `/`, `>` or the end again.
pub open spec fn attribute_open(m: TokenizerModel) -> bool {
    let n = attribute_count(m.slot);
    &&& in_attribute(m.state) && m.slot is Some ==> n != 0
    &&& (m.state == State::AfterAttributeName && n == 0 && !m.done) ==> {
                let c = char_at(m.input, m.pos - 1);
                m.reconsume && (is_char(c, '/') || is_char(c, '>') || c is None)
            }
}

/// The invariant of a tokenizer.
pub open spec fn model_wf(m: TokenizerModel) -> bool {
    &&& 0 <= m.pos <= m.input.len() + 1
    &&& m.input.len() < usize::MAX
    &&& m.reconsume ==> m.pos >= 1
    &&& (!m.done && m.pos == m.input.len() + 1) ==> m.reconsume
    &&& (m.slot is Some <==> builds_tag(m.state))
    &&& (m.slot is Some ==> (m.slot->0 is StartTag || m.slot->0 is EndTag))
    &&& (m.slot is Some ==> token_lower(m.slot->0))
    &&& attribute_open(m)
}

/// Turns of the loop up to the next token; nothing once `Eof` has been handed out.
pub open spec fn run(m: TokenizerModel) -> (TokenizerModel, Option<TokenModel>)
    decreases measure(m),
{
    if m.done || !model_wf(m) {
        (m, None)
    } else {
        let (m2, out) = step(m);
        if out is Some {
            (m2, out)
        } else if measure(m2) < measure(m) {
            run(m2)
        } else {
            (m2, None)
        }
    }
}

/// The tokens handed out from `m` on, up to and including `Eof`.
pub open spec fn all_tokens(m: TokenizerModel) -> Seq<TokenModel>
    decreases measure(m),
{
    if m.done || !model_wf(m) {
        Seq::empty()
    } else {
        let (m2, out) = run(m);
        if out is None {
            Seq::empty()
        } else if m2.done {
            seq![out->0]
        } else if measure(m2) < measure(m) {
            seq![out->0] + all_tokens(m2)
        } else {
            seq![out->0]
        }
    }
}

/// How many attributes a start tag in the slot holds; `-1` for anything else.
pub open spec fn attribute_count(slot: Option<TokenModel>) -> int {
    match slot {
        Some(TokenModel::StartTag { attributes, .. }) => attributes.len() as int,
        _ => -1,
    }
}

/// Tag names built from lower-cased characters stay free of capitals.
pub proof fn lemma_slot_ops(slot: Option<TokenModel>, c: char, d: char)
    requires
        slot is Some ==> token_lower(slot->0),
    ensures
        tag_name_pushed(slot, lower(c)) is Some ==> token_lower(tag_name_pushed(slot, lower(c))->0),
        attribute_started(slot) is Some ==> token_lower(attribute_started(slot)->0),
        attribute_pushed(slot, lower(c), true) is Some ==> token_lower(
            attribute_pushed(slot, lower(c), true)->0,
        ),
        attribute_pushed(slot, d, false) is Some ==> token_lower(
            attribute_pushed(slot, d, false)->0,
        ),
        self_closing_set(slot) is Some ==> token_lower(self_closing_set(slot)->0),
        tag_name_pushed(slot, c) is Some <==> slot is Some,
        attribute_started(slot) is Some <==> slot is Some,
        attribute_pushed(slot, d, false) is Some <==> slot is Some,
        attribute_pushed(slot, lower(c), true) is Some <==> slot is Some,
        self_closing_set(slot) is Some <==> slot is Some,
        attribute_count(tag_name_pushed(slot, c)) == attribute_count(slot),
        attribute_count(tag_name_pushed(slot, lower(c))) == attribute_count(slot),
        attribute_count(attribute_pushed(slot, d, false)) == attribute_count(slot),
        attribute_count(attribute_pushed(slot, lower(c), true)) == attribute_count(slot),
        attribute_count(self_closing_set(slot)) == attribute_count(slot),
        attribute_count(attribute_started(slot)) == if slot matches Some(TokenModel::StartTag { .. }) {
            attribute_count(slot) + 1
        } else {
            attribute_count(slot)
        },
        tag_name_pushed(slot, lower(c)) is Some ==> (tag_name_pushed(slot, lower(c))->0 is StartTag
            <==> slot->0 is StartTag),
        attribute_started(slot) is Some ==> (attribute_started(slot)->0 is StartTag
            <==> slot->0 is StartTag),
        attribute_pushed(slot, d, false) is Some ==> (attribute_pushed(slot, d, false)->0 is StartTag
            <==> slot->0 is StartTag),
        attribute_pushed(slot, lower(c), true) is Some ==> (attribute_pushed(
            slot,
            lower(c),
            true,
        )->0 is StartTag <==> slot->0 is StartTag),
{
    lemma_lower(c);
    match slot {
        Some(TokenModel::StartTag { tag, self_closing, attributes }) => {
            assert(no_upper(tag.push(lower(c))));
            let e = AttributeModel { name: Seq::empty(), value: Seq::empty() };
            assert(forall|j: int|
                0 <= j < attributes.push(e).len() ==> no_upper(
                    #[trigger] attributes.push(e)[j].name,
                )) by {
                assert forall|j: int| 0 <= j < attributes.push(e).len() implies no_upper(
                    #[trigger] attributes.push(e)[j].name,
                ) by {
                    if j < attributes.len() {
                        assert(attributes.push(e)[j] == attributes[j]);
                    }
                }
            }
            if attributes.len() > 0 {
                let k = attributes.len() - 1;
                let a2 = add_char_model(attributes.last(), lower(c), true);
                assert(no_upper(a2.name)) by {
                    assert(no_upper(attributes[k].name));
                }
                let a3 = add_char_model(attributes.last(), d, false);
                assert(a3.name == attributes[k].name);
                assert forall|j: int| 0 <= j < attributes.len() implies no_upper(
                    #[trigger] attributes.update(k, a2)[j].name,
                ) by {
                    if j != k {
                        assert(attributes.update(k, a2)[j] == attributes[j]);
                    }
                }
                assert forall|j: int| 0 <= j < attributes.len() implies no_upper(
                    #[trigger] attributes.update(k, a3)[j].name,
                ) by {
                    if j != k {
                        assert(attributes.update(k, a3)[j] == attributes[j]);
                    }
                }
            }
        },
        Some(TokenModel::EndTag { tag }) => {
            assert(no_upper(tag.push(lower(c))));
        },
        _ => {},
    }
}

/// One turn keeps the invariant; unless it hands out `Eof`, the measure falls.
#[verifier::rlimit(60)]
pub proof fn lemma_step(m: TokenizerModel)
    requires
        model_wf(m),
        !m.done,
    ensures
        model_wf(step(m).0),
        step(m).0.input == m.input,
        step(m).0.done <==> step(m).1 == Some(TokenModel::Eof),
        !step(m).0.done ==> measure(step(m).0) < measure(m),
        step(m).1 is Some ==> token_lower(step(m).1->0),
{
    let c = if m.reconsume {
        char_at(m.input, m.pos - 1)
    } else {
        char_at(m.input, m.pos)
    };
    if c is Some {
        lemma_slot_ops(m.slot, c->0, c->0);
        lemma_lower(c->0);
    }
    assert(token_lower(TokenModel::EndTag { tag: Seq::empty() }));
    assert(token_lower(new_tag(true)));
}

/// From a tokenizer that has not finished, the loop always hands out a token.
pub proof fn lemma_run(m: TokenizerModel)
    requires
        model_wf(m),
        !m.done,
    ensures
        run(m).1 is Some,
        model_wf(run(m).0),
        run(m).0.input == m.input,
        run(m).0.done <==> run(m).1 == Some(TokenModel::Eof),
        !run(m).0.done ==> measure(run(m).0) < measure(m),
        token_lower(run(m).1->0),
    decreases measure(m),
{
    lemma_step(m);
    let (m2, out) = step(m);
    if out is None {
        lemma_run(m2);
    }
}

/// Every input gives a token sequence that ends with `Eof`, holds no other `Eof`, and
/// names every tag and attribute in small letters.
pub proof fn lemma_tokens_end_with_one_eof(m: TokenizerModel)
    requires
        model_wf(m),
        !m.done,
    ensures
        all_tokens(m).len() >= 1,
        all_tokens(m).last() == TokenModel::Eof,
        forall|i: int| 0 <= i < all_tokens(m).len() - 1 ==> all_tokens(m)[i] != TokenModel::Eof,
        forall|i: int| 0 <= i < all_tokens(m).len() ==> token_lower(#[trigger] all_tokens(m)[i]),
    decreases measure(m),
{
    lemma_run(m);
    let (m2, out) = run(m);
    if !m2.done {
        lemma_tokens_end_with_one_eof(m2);
        let rest = all_tokens(m2);
        assert(all_tokens(m) == seq![out->0] + rest);
        assert forall|i: int| 0 <= i < all_tokens(m).len() - 1 implies all_tokens(m)[i]
            != TokenModel::Eof by {
            if i > 0 {
                assert(all_tokens(m)[i] == rest[i - 1]);
            }
        }
        assert forall|i: int| 0 <= i < all_tokens(m).len() implies token_lower(
            #[trigger] all_tokens(m)[i],
        ) by {
            if i > 0 {
                assert(all_tokens(m)[i] == rest[i - 1]);
            }
        }
    }
}

/// Once `Eof` has been handed out, no token follows it.
pub proof fn lemma_nothing_after_eof(m: TokenizerModel)
    requires
        m.done,
    ensures
        run(m) == (m, Option::<TokenModel>::None),
        all_tokens(m) == Seq::<TokenModel>::empty(),
{
}

pub proof fn lemma_lower(c: char)
    ensures
        !is_upper(lower(c)),
        is_alpha(c) ==> is_alpha(lower(c)),
{
}

/// A name made of small ASCII letters.
pub open spec fn plain_name(n: Seq<char>) -> bool {
    n.len() > 0 && forall|k: int| 0 <= k < n.len() ==> 'a' <= #[trigger] n[k] && n[k] <= 'z'
}

/// A token that markup writes back exactly: a tag with a plain name and no attributes, or
/// a character other than `<`.
pub open spec fn canonical_token(t: TokenModel) -> bool {
    match t {
        TokenModel::StartTag { tag, self_closing, attributes } => plain_name(tag) && !self_closing
            && attributes.len() == 0,
        TokenModel::EndTag { tag } => plain_name(tag),
        TokenModel::Char(c) => c != '<',
        TokenModel::Eof => false,
    }
}

/// The markup that writes one token.
pub open spec fn token_text(t: TokenModel) -> Seq<char> {
    match t {
        TokenModel::StartTag { tag, .. } => seq!['<'] + tag + seq!['>'],
        TokenModel::EndTag { tag } => seq!['<', '/'] + tag + seq!['>'],
        TokenModel::Char(c) => seq![c],
        TokenModel::Eof => Seq::empty(),
    }
}

/// The markup that writes a token sequence.
pub open spec fn markup(ts: Seq<TokenModel>) -> Seq<char>
    decreases ts.len(),
{
    if ts.len() == 0 {
        Seq::empty()
    } else {
        token_text(ts[0]) + markup(ts.drop_first())
    }
}

pub open spec fn tag_named(start: bool, n: Seq<char>) -> TokenModel {
    if start {
        TokenModel::StartTag { tag: n, self_closing: false, attributes: Seq::empty() }
    } else {
        TokenModel::EndTag { tag: n }
    }
}

/// In `Data`, at `pos`, with nothing pending.
pub open spec fn resting(m: TokenizerModel) -> bool {
    &&& model_wf(m)
    &&& !m.done
    &&& m.state == State::Data
    &&& !m.reconsume
    &&& m.slot is None
}

proof fn lemma_run_unfold(m: TokenizerModel)
    requires
        model_wf(m),
        !m.done,
    ensures
        step(m).1 is None ==> run(m) == run(step(m).0),
        step(m).1 is Some ==> run(m) == step(m),
{
    lemma_step(m);
}

proof fn lemma_read_name(m: TokenizerModel, start: bool, n: Seq<char>, k: int)
    requires
        model_wf(m),
        !m.done,
        m.state == State::TagName,
        !m.reconsume,
        plain_name(n),
        0 <= k <= n.len(),
        m.slot == Some(tag_named(start, n.subrange(0, k))),
        m.pos + n.len() - k < m.input.len(),
        m.input.subrange(m.pos, m.pos + n.len() - k) == n.subrange(k, n.len() as int),
        m.input[m.pos + n.len() - k] == '>',
    ensures
        run(m) == (
            TokenizerModel { state: State::Data, slot: None, pos: m.pos + n.len() - k + 1, ..m },
            Some(tag_named(start, n)),
        ),
    decreases n.len() - k,
{
    lemma_run_unfold(m);
    if k == n.len() {
        assert(n.subrange(0, k) =~= n);
    } else {
        let c = n[k];
        assert(m.input.subrange(m.pos, m.pos + n.len() - k)[0] == n.subrange(k, n.len() as int)[0]);
        assert('a' <= c && c <= 'z');
        assert(lower(c) == c);
        let sub = m.input.subrange(m.pos, m.pos + n.len() - k);
        assert(sub[0] == n.subrange(k, n.len() as int)[0]);
        assert(sub[0] == m.input[m.pos]);
        assert(m.input[m.pos] == c);
        let m2 = step(m).0;
        assert(n.subrange(0, k).push(c) =~= n.subrange(0, k + 1));
        assert(m2 == TokenizerModel { pos: m.pos + 1, slot: Some(tag_named(start, n.subrange(0, k + 1))), ..m });
        assert(m2.input.subrange(m2.pos, m2.pos + n.len() - (k + 1)) =~= m.input.subrange(
            m.pos,
            m.pos + n.len() - k,
        ).subrange(1, n.len() - k));
        assert(n.subrange(k + 1, n.len() as int) =~= n.subrange(k, n.len() as int).subrange(
            1,
            n.len() - k,
        ));
        lemma_read_name(m2, start, n, k + 1);
    }
}

proof fn lemma_read_token(m: TokenizerModel, t: TokenModel)
    requires
        resting(m),
        canonical_token(t),
        m.pos + token_text(t).len() <= m.input.len(),
        m.input.subrange(m.pos, m.pos + token_text(t).len()) == token_text(t),
    ensures
        run(m) == (TokenizerModel { pos: m.pos + token_text(t).len(), ..m }, Some(t)),
{
    let text = token_text(t);
    assert forall|j: int| 0 <= j < text.len() implies m.input[m.pos + j] == #[trigger] text[j] by {
        assert(m.input.subrange(m.pos, m.pos + text.len())[j] == text[j]);
    }
    lemma_run_unfold(m);
    assert(m.input[m.pos + 0] == text[0]);
    match t {
        TokenModel::Char(c) => {
            assert(text.len() == 1);
            assert(char_at(m.input, m.pos) == Some(c));
        },
        TokenModel::StartTag { tag, attributes, .. } => {
            let n = tag;
            assert(attributes =~= Seq::<crate::attribute::AttributeModel>::empty());
            assert(text[1int] == n[0]);
            assert(m.input[m.pos + 1] == n[0]);
            let m1 = step(m).0;
            lemma_run_unfold(m1);
            let m2 = step(m1).0;
            lemma_run_unfold(m2);
            let m3 = step(m2).0;
            assert(lower(n[0]) == n[0]);
            assert(Seq::<char>::empty().push(n[0]) =~= n.subrange(0, 1));
            assert(m3 == TokenizerModel { state: State::TagName, pos: m.pos + 2, slot: Some(tag_named(true, n.subrange(0, 1))), ..m });
            assert(m3.input.subrange(m3.pos, m3.pos + n.len() - 1) =~= m.input.subrange(
                m.pos,
                m.pos + text.len(),
            ).subrange(2, 1 + n.len() as int));
            assert(text.subrange(2, 1 + n.len() as int) =~= n.subrange(1, n.len() as int));
            assert(text[1 + n.len() as int] == '>');
            assert(m.input[m.pos + (1 + n.len())] == '>');
            lemma_read_name(m3, true, n, 1);
        },
        TokenModel::EndTag { tag } => {
            let n = tag;
            assert(text[1] == '/');
            assert(m.input[m.pos + 1] == '/');
            assert(text[2int] == n[0]);
            assert(m.input[m.pos + 2] == n[0]);
            let m1 = step(m).0;
            lemma_run_unfold(m1);
            let m2 = step(m1).0;
            lemma_run_unfold(m2);
            let m3 = step(m2).0;
            lemma_run_unfold(m3);
            let m4 = step(m3).0;
            assert(lower(n[0]) == n[0]);
            assert(Seq::<char>::empty().push(n[0]) =~= n.subrange(0, 1));
            assert(m4 == TokenizerModel { state: State::TagName, pos: m.pos + 3, slot: Some(tag_named(false, n.subrange(0, 1))), ..m });
            assert(m4.input.subrange(m4.pos, m4.pos + n.len() - 1) =~= m.input.subrange(
                m.pos,
                m.pos + text.len(),
            ).subrange(3, 2 + n.len() as int));
            assert(text.subrange(3, 2 + n.len() as int) =~= n.subrange(1, n.len() as int));
            assert(text[2 + n.len() as int] == '>');
            assert(m.input[m.pos + (2 + n.len())] == '>');
            lemma_read_name(m4, false, n, 1);
        },
        TokenModel::Eof => {},
    }
}

proof fn lemma_read_markup(m: TokenizerModel, ts: Seq<TokenModel>)
    requires
        resting(m),
        forall|k: int| 0 <= k < ts.len() ==> canonical_token(#[trigger] ts[k]),
        m.pos + markup(ts).len() == m.input.len(),
        m.input.subrange(m.pos, m.input.len() as int) == markup(ts),
    ensures
        all_tokens(m) == ts.push(TokenModel::Eof),
    decreases ts.len(),
{
    lemma_run(m);
    if ts.len() == 0 {
        lemma_run_unfold(m);
        assert(all_tokens(m) =~= ts.push(TokenModel::Eof));
    } else {
        let t = ts[0];
        let rest = ts.drop_first();
        let text = token_text(t);
        let whole = m.input.subrange(m.pos, m.input.len() as int);
        assert(m.input.subrange(m.pos, m.pos + text.len()) =~= whole.subrange(0, text.len() as int));
        assert(whole.subrange(0, text.len() as int) =~= text);
        lemma_read_token(m, t);
        let m2 = TokenizerModel { pos: m.pos + text.len(), ..m };
        assert(m2.input.subrange(m2.pos, m2.input.len() as int) =~= whole.subrange(
            text.len() as int,
            whole.len() as int,
        ));
        assert(whole.subrange(text.len() as int, whole.len() as int) =~= markup(rest));
        assert forall|k: int| 0 <= k < rest.len() implies canonical_token(#[trigger] rest[k]) by {
            assert(rest[k] == ts[k + 1]);
        }
        lemma_read_markup(m2, rest);
        assert(all_tokens(m) == seq![t] + all_tokens(m2));
        assert(seq![t] + rest.push(TokenModel::Eof) =~= ts.push(TokenModel::Eof));
    }
}

/// Tokenizing the markup that writes canonical tokens gives those tokens back, then `Eof`.
pub proof fn lemma_retokenize_identity(ts: Seq<TokenModel>, input: Seq<char>)
    requires
        forall|k: int| 0 <= k < ts.len() ==> canonical_token(#[trigger] ts[k]),
        input == markup(ts),
        input.len() < usize::MAX,
    ensures
        all_tokens(
            TokenizerModel {
                state: State::Data,
                pos: 0,
                reconsume: false,
                slot: None,
                input,
                buf: Seq::empty(),
                done: false,
            },
        ) == ts.push(TokenModel::Eof),
{
    let m = TokenizerModel {
        state: State::Data,
        pos: 0,
        reconsume: false,
        slot: None,
        input,
        buf: Seq::empty(),
        done: false,
    };
    assert(input.subrange(0, input.len() as int) =~= input);
    lemma_read_markup(m, ts);
}

/// The raw-text states, which only a caller that switches into them reaches.
pub open spec fn in_script(s: State) -> bool {
    match s {
        State::ScriptData | State::ScriptDataLessThanSign | State::ScriptDataEndTagOpen
        | State::ScriptDataEndTagName | State::TemporaryBuffer => true,
        _ => false,
    }
}

proof fn lemma_step_forward(m: TokenizerModel)
    requires
        model_wf(m),
        !m.done,
        !in_script(m.state),
    ensures
        step(m).0.pos >= m.pos,
        !m.reconsume ==> step(m).0.pos == m.pos + 1,
        !in_script(step(m).0.state),
        step(m).1 is Some && !step(m).0.done ==> !step(m).0.reconsume,
{
}

proof fn lemma_run_forward(m: TokenizerModel)
    requires
        model_wf(m),
        !m.done,
        !in_script(m.state),
    ensures
        run(m).0.pos >= m.pos,
        !m.reconsume ==> run(m).0.pos >= m.pos + 1,
        !in_script(run(m).0.state),
        !run(m).0.done ==> !run(m).0.reconsume,
    decreases measure(m),
{
    lemma_step(m);
    lemma_step_forward(m);
    let (m2, out) = step(m);
    if out is None {
        lemma_run_forward(m2);
    }
}

proof fn lemma_token_count(m: TokenizerModel)
    requires
        model_wf(m),
        !m.done,
        !m.reconsume,
        !in_script(m.state),
    ensures
        all_tokens(m).len() <= m.input.len() + 1 - m.pos,
    decreases measure(m),
{
    lemma_run(m);
    lemma_run_forward(m);
    let (m2, out) = run(m);
    if !m2.done {
        lemma_token_count(m2);
    }
}

/// A document of `n` characters gives at most `n + 1` tokens, `Eof` included.
pub proof fn lemma_at_most_one_token_per_character(input: Seq<char>)
    requires
        input.len() < usize::MAX,
    ensures
        all_tokens(
            TokenizerModel {
                state: State::Data,
                pos: 0,
                reconsume: false,
                slot: None,
                input,
                buf: Seq::empty(),
                done: false,
            },
        ).len() <= input.len() + 1,
{
    lemma_token_count(
        TokenizerModel {
            state: State::Data,
            pos: 0,
            reconsume: false,
            slot: None,
            input,
            buf: Seq::empty(),
            done: false,
        },
    );
}

} // verus!
