use vstd::prelude::*;

verus! {

/// Relies on String::push: the character is appended at the end of the string.
#[verifier::external_body]
pub(crate) fn push_char(s: &mut String, c: char)
    ensures
        final(s)@ == old(s)@.push(c),
{
    s.push(c)
}

/// The name and the value of an attribute, as character sequences.
pub ghost struct AttributeModel {
    pub name: Seq<char>,
    pub value: Seq<char>,
}

/// One attribute of a start tag: a name and a value.
#[derive(Debug, Clone, PartialEq, Eq)]
pub struct Attribute {
    name: String,
    value: String,
}

impl View for Attribute {
    type V = AttributeModel;

    closed spec fn view(&self) -> AttributeModel {
        AttributeModel { name: self.name@, value: self.value@ }
    }
}

/// The model of `a` after `c` is appended to its name (`is_name`) or to its value.
pub open spec fn add_char_model(a: AttributeModel, c: char, is_name: bool) -> AttributeModel {
    if is_name {
        AttributeModel { name: a.name.push(c), value: a.value }
    } else {
        AttributeModel { name: a.name, value: a.value.push(c) }
    }
}

impl Attribute {
    /// An attribute with an empty name and an empty value.
    pub fn new() -> (r: Self)
        ensures
            r@.name == Seq::<char>::empty(),
            r@.value == Seq::<char>::empty(),
    {
        Attribute { name: String::new(), value: String::new() }
    }

    /// An attribute with the given name and value.
    pub fn with_name_value(name: String, value: String) -> (r: Self)
        ensures
            r@.name == name@,
            r@.value == value@,
    {
        Attribute { name, value }
    }

    /// Appends `c` to the name when `is_name` holds, to the value otherwise.
    pub fn add_char(&mut self, c: char, is_name: bool)
        ensures
            final(self)@ == add_char_model(old(self)@, c, is_name),
    {
        if is_name {
            push_char(&mut self.name, c);
        } else {
            push_char(&mut self.value, c);
        }
    }

    pub fn name(&self) -> (r: String)
        ensures
            r@ == self@.name,
    {
        self.name.clone()
    }

    pub fn value(&self) -> (r: String)
        ensures
            r@ == self@.value,
    {
        self.value.clone()
    }
}

} // verus!
