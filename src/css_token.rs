use vstd::prelude::*;
use crate::attribute::push_char;
use crate::html_model::is_alpha;

verus! {

/// A CSS token as the contracts see it.
pub ghost enum CssTokenModel {
    HashToken(Seq<char>),
    Delim(char),
    Number(Seq<char>),
    Colon,
    SemiColon,
    OpenParenthesis,
    CloseParenthesis,
    OpenCurly,
    CloseCurly,
    Ident(Seq<char>),
    StringToken(Seq<char>),
    AtKeyword(Seq<char>),
}

/// A token of a style sheet. `HashToken` holds the name after `#`, `AtKeyword` the name
/// after `@`, and `Number` the digits and dots as written.
#[derive(Debug, Clone, PartialEq, Eq)]
pub enum CssToken {
    HashToken(String),
    Delim(char),
    Number(String),
    Colon,
    SemiColon,
    OpenParenthesis,
    CloseParenthesis,
    OpenCurly,
    CloseCurly,
    Ident(String),
    StringToken(String),
    AtKeyword(String),
}

impl View for CssToken {
    type V = CssTokenModel;

    open spec fn view(&self) -> CssTokenModel {
        match self {
            CssToken::HashToken(s) => CssTokenModel::HashToken(s@),
            CssToken::Delim(c) => CssTokenModel::Delim(*c),
            CssToken::Number(s) => CssTokenModel::Number(s@),
            CssToken::Colon => CssTokenModel::Colon,
            CssToken::SemiColon => CssTokenModel::SemiColon,
            CssToken::OpenParenthesis => CssTokenModel::OpenParenthesis,
            CssToken::CloseParenthesis => CssTokenModel::CloseParenthesis,
            CssToken::OpenCurly => CssTokenModel::OpenCurly,
            CssToken::CloseCurly => CssTokenModel::CloseCurly,
            CssToken::Ident(s) => CssTokenModel::Ident(s@),
            CssToken::StringToken(s) => CssTokenModel::StringToken(s@),
            CssToken::AtKeyword(s) => CssTokenModel::AtKeyword(s@),
        }
    }
}

/// A copy of a token.
pub fn copy_token(t: &CssToken) -> (r: CssToken)
    ensures
        r@ == t@,
{
    match t {
        CssToken::HashToken(s) => CssToken::HashToken(s.clone()),
        CssToken::Delim(c) => CssToken::Delim(*c),
        CssToken::Number(s) => CssToken::Number(s.clone()),
        CssToken::Colon => CssToken::Colon,
        CssToken::SemiColon => CssToken::SemiColon,
        CssToken::OpenParenthesis => CssToken::OpenParenthesis,
        CssToken::CloseParenthesis => CssToken::CloseParenthesis,
        CssToken::OpenCurly => CssToken::OpenCurly,
        CssToken::CloseCurly => CssToken::CloseCurly,
        CssToken::Ident(s) => CssToken::Ident(s.clone()),
        CssToken::StringToken(s) => CssToken::StringToken(s.clone()),
        CssToken::AtKeyword(s) => CssToken::AtKeyword(s.clone()),
    }
}

pub open spec fn is_digit(c: char) -> bool {
    '0' <= c && c <= '9'
}

pub open spec fn is_ident_char(c: char) -> bool {
    is_alpha(c) || is_digit(c) || c == '-' || c == '_'
}

pub open spec fn is_number_char(c: char) -> bool {
    is_digit(c) || c == '.'
}

pub open spec fn is_space(c: char) -> bool {
    c == ' ' || c == '\n' || c == '\t' || c == '\r'
}

/// The end of the run of name characters that starts at `i`.
pub open spec fn ident_end(input: Seq<char>, i: int) -> int
    decreases input.len() - i,
{
    if 0 <= i < input.len() && is_ident_char(input[i]) {
        ident_end(input, i + 1)
    } else {
        i
    }
}

/// The end of the run of digits and dots that starts at `i`.
pub open spec fn number_end(input: Seq<char>, i: int) -> int
    decreases input.len() - i,
{
    if 0 <= i < input.len() && is_number_char(input[i]) {
        number_end(input, i + 1)
    } else {
        i
    }
}

/// The position of the first `q` from `i` on, or the end of the input.
pub open spec fn string_end(input: Seq<char>, i: int, q: char) -> int
    decreases input.len() - i,
{
    if 0 <= i < input.len() && input[i] != q {
        string_end(input, i + 1, q)
    } else {
        i
    }
}

/// The token that starts at `i`, which is no white space, and the position after it.
pub open spec fn token_at(input: Seq<char>, i: int) -> (CssTokenModel, int) {
    let c = input[i];
    if c == '(' {
        (CssTokenModel::OpenParenthesis, i + 1)
    } else if c == ')' {
        (CssTokenModel::CloseParenthesis, i + 1)
    } else if c == ':' {
        (CssTokenModel::Colon, i + 1)
    } else if c == ';' {
        (CssTokenModel::SemiColon, i + 1)
    } else if c == '{' {
        (CssTokenModel::OpenCurly, i + 1)
    } else if c == '}' {
        (CssTokenModel::CloseCurly, i + 1)
    } else if c == '"' || c == '\'' {
        let e = string_end(input, i + 1, c);
        (
            CssTokenModel::StringToken(input.subrange(i + 1, e)),
            if e < input.len() {
                e + 1
            } else {
                e
            },
        )
    } else if is_digit(c) {
        let e = number_end(input, i);
        (CssTokenModel::Number(input.subrange(i, e)), e)
    } else if c == '#' {
        let e = ident_end(input, i + 1);
        (CssTokenModel::HashToken(input.subrange(i + 1, e)), e)
    } else if c == '@' && i + 1 < input.len() && is_alpha(input[i + 1]) {
        let e = ident_end(input, i + 1);
        (CssTokenModel::AtKeyword(input.subrange(i + 1, e)), e)
    } else if is_alpha(c) || c == '-' || c == '_' {
        let e = ident_end(input, i);
        (CssTokenModel::Ident(input.subrange(i, e)), e)
    } else {
        (CssTokenModel::Delim(c), i + 1)
    }
}

/// The next token from `i` on, white space skipped, and the position after it.
pub open spec fn lex_at(input: Seq<char>, i: int) -> Option<(CssTokenModel, int)>
    decreases input.len() - i,
{
    if i < 0 || i >= input.len() {
        None
    } else if is_space(input[i]) {
        lex_at(input, i + 1)
    } else {
        Some(token_at(input, i))
    }
}

/// All the tokens from `i` on.
pub open spec fn lex_all(input: Seq<char>, i: int) -> Seq<CssTokenModel>
    decreases input.len() - i,
{
    match lex_at(input, i) {
        None => Seq::empty(),
        Some((t, j)) => if i < j <= input.len() {
            seq![t] + lex_all(input, j)
        } else {
            Seq::empty()
        },
    }
}

pub proof fn lemma_run_ends(input: Seq<char>, i: int, q: char)
    requires
        0 <= i <= input.len(),
    ensures
        i <= ident_end(input, i) <= input.len(),
        i <= number_end(input, i) <= input.len(),
        i <= string_end(input, i, q) <= input.len(),
    decreases input.len() - i,
{
    if i < input.len() {
        lemma_run_ends(input, i + 1, q);
    }
}

/// The token found from `i` on ends after `i`, within the input.
pub proof fn lemma_lex_advances(input: Seq<char>, i: int)
    requires
        0 <= i,
    ensures
        lex_at(input, i) matches Some((t, j)) ==> i < j <= input.len(),
    decreases input.len() - i,
{
    if 0 <= i < input.len() {
        if is_space(input[i]) {
            lemma_lex_advances(input, i + 1);
        } else {
            lemma_run_ends(input, i + 1, input[i]);
            lemma_run_ends(input, i, input[i]);
        }
    }
}

/// Reads the tokens of a style sheet one at a time.
#[derive(Debug, Clone, PartialEq, Eq)]
pub struct CssTokenizer {
    pos: usize,
    input: Vec<char>,
}

impl CssTokenizer {
    pub closed spec fn spec_input(&self) -> Seq<char> {
        self.input@
    }

    pub closed spec fn spec_pos(&self) -> int {
        self.pos as int
    }

    pub open spec fn wf(&self) -> bool {
        0 <= self.spec_pos() <= self.spec_input().len()
    }

    /// The tokens not yet read.
    pub open spec fn remaining(&self) -> Seq<CssTokenModel> {
        lex_all(self.spec_input(), self.spec_pos())
    }

    pub fn new(css: String) -> (r: Self)
        ensures
            r.wf(),
            r.spec_input() == css@,
            r.spec_pos() == 0,
    {
        CssTokenizer { pos: 0, input: crate::html_token::chars_of(&css) }
    }

    /// A tokenizer at the same place in the same input.
    pub(crate) fn duplicate(&self) -> (r: Self)
        ensures
            r.spec_input() == self.spec_input(),
            r.spec_pos() == self.spec_pos(),
    {
        CssTokenizer { pos: self.pos, input: self.input.clone() }
    }

    /// The characters from `start` up to `end`.
    fn slice(&self, start: usize, end: usize) -> (r: String)
        requires
            start <= end <= self.input@.len(),
        ensures
            r@ == self.input@.subrange(start as int, end as int),
    {
        let mut s = String::new();
        let mut k: usize = start;
        while k < end
            invariant
                start <= k <= end <= self.input@.len(),
                s@ == self.input@.subrange(start as int, k as int),
            decreases end - k,
        {
            push_char(&mut s, self.input[k]);
            proof {
                assert(self.input@.subrange(start as int, k + 1) =~= self.input@.subrange(
                    start as int,
                    k as int,
                ).push(self.input@[k as int]));
            }
            k = k + 1;
        }
        s
    }

    fn ident_end(&self, i: usize) -> (r: usize)
        requires
            i <= self.input@.len(),
        ensures
            r == ident_end(self.input@, i as int),
    {
        let mut j = i;
        proof {
            lemma_run_ends(self.input@, i as int, ' ');
        }
        while j < self.input.len() && is_name_char(self.input[j])
            invariant
                i <= j <= self.input@.len(),
                ident_end(self.input@, j as int) == ident_end(self.input@, i as int),
            decreases self.input@.len() - j,
        {
            j = j + 1;
        }
        j
    }

    fn number_end(&self, i: usize) -> (r: usize)
        requires
            i <= self.input@.len(),
        ensures
            r == number_end(self.input@, i as int),
    {
        let mut j = i;
        while j < self.input.len() && (is_digit_char(self.input[j]) || self.input[j] == '.')
            invariant
                i <= j <= self.input@.len(),
                number_end(self.input@, j as int) == number_end(self.input@, i as int),
            decreases self.input@.len() - j,
        {
            j = j + 1;
        }
        j
    }

    fn string_end(&self, i: usize, q: char) -> (r: usize)
        requires
            i <= self.input@.len(),
        ensures
            r == string_end(self.input@, i as int, q),
    {
        let mut j = i;
        while j < self.input.len() && self.input[j] != q
            invariant
                i <= j <= self.input@.len(),
                string_end(self.input@, j as int, q) == string_end(self.input@, i as int, q),
            decreases self.input@.len() - j,
        {
            j = j + 1;
        }
        j
    }

    /// The next token, white space skipped; `None` at the end of the input.
    pub fn next(&mut self) -> (r: Option<CssToken>)
        requires
            old(self).wf(),
        ensures
            final(self).wf(),
            final(self).spec_input() == old(self).spec_input(),
            r is None <==> lex_at(old(self).spec_input(), old(self).spec_pos()) is None,
            r is Some ==> (r->0@, final(self).spec_pos()) == lex_at(
                old(self).spec_input(),
                old(self).spec_pos(),
            )->0,
    {
        let len = self.input.len();
        while self.pos < len && is_space_char(self.input[self.pos])
            invariant
                len == self.input@.len(),
                self.input@ == old(self).input@,
                old(self).pos <= self.pos <= len,
                lex_at(self.input@, self.pos as int) == lex_at(old(self).input@, old(self).pos as int),
            decreases len - self.pos,
        {
            self.pos = self.pos + 1;
        }
        if self.pos >= len {
            return None;
        }
        let i = self.pos;
        let c = self.input[i];
        proof {
            lemma_run_ends(self.input@, i + 1, c);
            lemma_run_ends(self.input@, i as int, c);
        }
        let t = if c == '(' {
            self.pos = i + 1;
            CssToken::OpenParenthesis
        } else if c == ')' {
            self.pos = i + 1;
            CssToken::CloseParenthesis
        } else if c == ':' {
            self.pos = i + 1;
            CssToken::Colon
        } else if c == ';' {
            self.pos = i + 1;
            CssToken::SemiColon
        } else if c == '{' {
            self.pos = i + 1;
            CssToken::OpenCurly
        } else if c == '}' {
            self.pos = i + 1;
            CssToken::CloseCurly
        } else if c == '"' || c == '\'' {
            let e = self.string_end(i + 1, c);
            let s = self.slice(i + 1, e);
            self.pos = if e < len {
                e + 1
            } else {
                e
            };
            CssToken::StringToken(s)
        } else if is_digit_char(c) {
            let e = self.number_end(i);
            self.pos = e;
            CssToken::Number(self.slice(i, e))
        } else if c == '#' {
            let e = self.ident_end(i + 1);
            self.pos = e;
            CssToken::HashToken(self.slice(i + 1, e))
        } else if c == '@' && i + 1 < len && is_letter(self.input[i + 1]) {
            let e = self.ident_end(i + 1);
            self.pos = e;
            CssToken::AtKeyword(self.slice(i + 1, e))
        } else if is_letter(c) || c == '-' || c == '_' {
            let e = self.ident_end(i);
            self.pos = e;
            CssToken::Ident(self.slice(i, e))
        } else {
            self.pos = i + 1;
            CssToken::Delim(c)
        };
        Some(t)
    }
}

fn is_letter(c: char) -> (r: bool)
    ensures
        r == is_alpha(c),
{
    ('A' <= c && c <= 'Z') || ('a' <= c && c <= 'z')
}

fn is_digit_char(c: char) -> (r: bool)
    ensures
        r == is_digit(c),
{
    '0' <= c && c <= '9'
}

fn is_name_char(c: char) -> (r: bool)
    ensures
        r == is_ident_char(c),
{
    is_letter(c) || is_digit_char(c) || c == '-' || c == '_'
}

fn is_space_char(c: char) -> (r: bool)
    ensures
        r == is_space(c),
{
    c == ' ' || c == '\n' || c == '\t' || c == '\r'
}

} // verus!
