//! The markup front end of a browser engine: an HTML tokenizer, and a CSS tokenizer and
//! parser that build a style sheet's object model.

pub mod attribute;
pub mod html_model;
pub mod html_token;
pub mod css_token;
pub mod cssom_model;
pub mod cssom;

pub use attribute::Attribute;
pub use html_model::State;
pub use html_token::{HtmlToken, HtmlTokenizer};
pub use css_token::{CssToken, CssTokenizer};
pub use cssom::{ComponentValue, CssParser, Declaration, QualifiedRule, Selector, Stylesheet};
